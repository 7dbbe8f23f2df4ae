//! One QUIC connection to one remote destination, multiplexing a set of
//! client endpoints onto distinct streams.
//!
//! The connection tracks its lifecycle state, admission-checks newcomers
//! against its configured application protocol, assigns each admitted client
//! a fresh client-initiated bidirectional stream id (multiples of four,
//! starting at four), and accumulates per-stream receive buffers so bytes
//! reach each client in arrival order. The UDP socket and the QUIC transport
//! library that produce and consume datagrams are driven outside the
//! library; their reports (closed, established, peer error, stream payload)
//! are handed in as plain values and every decision on them is made here.

use vstd::prelude::*;

verus! {

use vstd::slice::slice_index_get;
use vstd::slice::slice_to_vec;
use vstd::string::StringSliceAdditionalSpecFns;
use vstd::std_specs::vec::vec_index_mut;
use crate::client::Client;
use crate::client::ClientError;
use crate::client::msg_departs;
use crate::client::msg_error;
use crate::client::msg_stages;
use crate::client::spec_staged;
use crate::frame::okok_magic;
use crate::frame::spec_erro_frame;
use crate::frame::encode_ok_frame;
use crate::frame::encode_erro_frame;
use crate::tokens::TokenManager;

/// The largest UDP datagram the QUIC configuration sends or accepts.
pub const MAX_DATAGRAM_SIZE: usize = 1350;

/// The length of the source connection id the transport requires.
pub const CONN_ID_LEN: usize = 20;

/// A connection's lifecycle: it is created connecting, becomes established
/// when the handshake completes, and is closed when the transport reports
/// so. Transitions never go backwards.
#[derive(Debug, Clone, Copy, PartialEq, Eq, Structural)]
pub enum State {
    Connecting,
    Established,
    Closed,
}

/// The position of a state on the one-way road from Connecting to Closed.
pub open spec fn state_rank(s: State) -> int {
    match s {
        State::Connecting => 0,
        State::Established => 1,
        State::Closed => 2,
    }
}

/// The transport parameters the daemon configures a new QUIC connection
/// with: a 50 s idle timeout, 1350-byte datagrams, a 10 MB connection
/// flow-control window, 1 MB per-stream windows, up to 100 streams either
/// way, active migration disabled, early data enabled, and no peer
/// certificate verification.
pub struct TransportParams {
    pub max_idle_timeout_ms: u64,
    pub max_udp_payload_size: u64,
    pub initial_max_data: u64,
    pub initial_max_stream_data_bidi_local: u64,
    pub initial_max_stream_data_bidi_remote: u64,
    pub initial_max_stream_data_uni: u64,
    pub initial_max_streams_bidi: u64,
    pub initial_max_streams_uni: u64,
    pub disable_active_migration: bool,
    pub enable_early_data: bool,
    pub verify_peer: bool,
}

/// The fixed transport parameters of every connection the daemon opens.
pub fn quic_config_params() -> (r: TransportParams)
    ensures
        r.max_idle_timeout_ms == 50000,
        r.max_udp_payload_size == MAX_DATAGRAM_SIZE,
        r.initial_max_data == 10000000,
        r.initial_max_stream_data_bidi_local == 1000000,
        r.initial_max_stream_data_bidi_remote == 1000000,
        r.initial_max_stream_data_uni == 1000000,
        r.initial_max_streams_bidi == 100,
        r.initial_max_streams_uni == 100,
        r.disable_active_migration,
        r.enable_early_data,
        !r.verify_peer,
{
    TransportParams {
        max_idle_timeout_ms: 50000,
        max_udp_payload_size: 1350,
        initial_max_data: 10000000,
        initial_max_stream_data_bidi_local: 1000000,
        initial_max_stream_data_bidi_remote: 1000000,
        initial_max_stream_data_uni: 1000000,
        initial_max_streams_bidi: 100,
        initial_max_streams_uni: 100,
        disable_active_migration: true,
        enable_early_data: true,
        verify_peer: false,
    }
}

/// One shared QUIC connection: its destination's application protocol, its
/// UDP socket's poller token, its lifecycle state, the next stream id to
/// assign, the admitted clients keyed by their stream id, and the bytes
/// received per stream that their client has not consumed yet.
pub struct Connection {
    pub app_proto: Vec<u8>,
    pub token: u64,
    pub state: State,
    pub next_stream_id: u64,
    pub clients: Vec<(u64, Client)>,
    pub received_data: Vec<(u64, Vec<u8>)>,
}

impl Connection {
    /// The connection's invariants: stream ids are positive multiples of
    /// four below the allocation cursor and pairwise distinct; client
    /// endpoints are well formed and their tokens are pairwise distinct and
    /// differ from the UDP socket's; receive buffers are keyed uniquely.
    pub open spec fn wf(self) -> bool {
        &&& self.next_stream_id % 4 == 0
        &&& self.next_stream_id >= 4
        &&& forall|i: int|
            0 <= i < self.clients@.len() ==> (#[trigger] self.clients@[i].0) % 4 == 0 && 4
                <= self.clients@[i].0 < self.next_stream_id
        &&& forall|i: int, j: int|
            0 <= i < j < self.clients@.len() ==> self.clients@[i].0 != self.clients@[j].0
        &&& forall|i: int| 0 <= i < self.clients@.len() ==> (#[trigger] self.clients@[i].1).wf()
        &&& forall|i: int, j: int|
            0 <= i < j < self.clients@.len() ==> self.clients@[i].1.token
                != self.clients@[j].1.token
        &&& forall|i: int|
            0 <= i < self.clients@.len() ==> (#[trigger] self.clients@[i].1).token != self.token
        &&& rd_keys_unique(self.received_data@)
    }

    /// Whether some admitted client owns stream `sid`.
    pub open spec fn has_client(self, sid: u64) -> bool {
        exists|i: int| 0 <= i < self.clients@.len() && self.clients@[i].0 == sid
    }

    /// The position of stream `sid`'s client in the client list.
    pub open spec fn client_index(self, sid: u64) -> int {
        choose|i: int| 0 <= i < self.clients@.len() && self.clients@[i].0 == sid
    }

    /// The endpoint of the client that owns stream `sid`.
    pub open spec fn client_at(self, sid: u64) -> Client {
        self.clients@[self.client_index(sid)].1
    }

    /// Whether some admitted client's socket is registered under token `t`.
    pub open spec fn owns_token(self, t: u64) -> bool {
        exists|i: int| 0 <= i < self.clients@.len() && self.clients@[i].1.token == t
    }

    /// Whether stream `sid` has a receive buffer.
    pub open spec fn has_buffer(self, sid: u64) -> bool {
        rd_has(self.received_data@, sid)
    }

    /// The bytes received on stream `sid` and not yet consumed by its
    /// client, in arrival order; empty when nothing is buffered.
    pub open spec fn buffered(self, sid: u64) -> Seq<u8> {
        rd_at(self.received_data@, sid)
    }

    /// With unique stream ids, any position holding `sid` is the position
    /// the spec functions name.
    pub proof fn lemma_client_at(self, i: int)
        requires
            self.wf(),
            0 <= i < self.clients@.len(),
        ensures
            self.has_client(self.clients@[i].0),
            self.client_index(self.clients@[i].0) == i,
    {
        let sid = self.clients@[i].0;
        assert(self.has_client(sid));
        let j = self.client_index(sid);
        if i < j {
            assert(self.clients@[i].0 != self.clients@[j].0);
        } else if j < i {
            assert(self.clients@[j].0 != self.clients@[i].0);
        }
    }

    /// A new connection for one destination: it starts connecting, with no
    /// clients, nothing buffered, and stream id 4 next to assign.
    pub fn new(app_proto: Vec<u8>, token: u64) -> (r: Connection)
        ensures
            r.wf(),
            r.app_proto == app_proto,
            r.token == token,
            r.state is Connecting,
            r.next_stream_id == 4,
            r.clients@.len() == 0,
            r.received_data@.len() == 0,
    {
        Connection {
            app_proto,
            token,
            state: State::Connecting,
            next_stream_id: 4,
            clients: Vec::new(),
            received_data: Vec::new(),
        }
    }

    /// The poller token of this connection's UDP socket.
    pub fn get_token(&self) -> (t: u64)
        ensures
            t == self.token,
    {
        self.token
    }

    /// Whether the transport has reported this connection closed; the
    /// manager garbage-collects it then.
    pub fn is_closed(&self) -> (r: bool)
        ensures
            r == (self.state is Closed),
    {
        matches!(self.state, State::Closed)
    }

    /// The position of stream `sid`'s client, if one is admitted.
    fn find_client(&self, sid: u64) -> (r: Option<usize>)
        requires
            self.wf(),
        ensures
            r is Some <==> self.has_client(sid),
            r matches Some(i) ==> i == self.client_index(sid) && self.clients@[i as int].0 == sid,
    {
        let n = self.clients.len();
        let mut i: usize = 0;
        while i < n
            invariant
                self.wf(),
                n == self.clients@.len(),
                i <= n,
                forall|k: int| 0 <= k < i ==> self.clients@[k].0 != sid,
            decreases n - i,
        {
            if self.clients[i].0 == sid {
                proof {
                    self.lemma_client_at(i as int);
                }
                return Some(i);
            }
            i = i + 1;
        }
        proof {
            if self.has_client(sid) {
                let j = self.client_index(sid);
                assert(self.clients@[j].0 == sid);
            }
        }
        None
    }

    /// The position of stream `sid`'s receive buffer, if one exists.
    fn find_buffer(&self, sid: u64) -> (r: Option<usize>)
        requires
            self.wf(),
        ensures
            r is Some <==> self.has_buffer(sid),
            r matches Some(i) ==> i == rd_index(self.received_data@, sid)
                && self.received_data@[i as int].0 == sid,
    {
        let n = self.received_data.len();
        let mut i: usize = 0;
        while i < n
            invariant
                self.wf(),
                n == self.received_data@.len(),
                i <= n,
                forall|k: int| 0 <= k < i ==> self.received_data@[k].0 != sid,
            decreases n - i,
        {
            if self.received_data[i].0 == sid {
                proof {
                    lemma_rd_at(self.received_data@, i as int);
                }
                return Some(i);
            }
            i = i + 1;
        }
        proof {
            if self.has_buffer(sid) {
                let j = rd_index(self.received_data@, sid);
                assert(self.received_data@[j].0 == sid);
            }
        }
        None
    }

    /// How this connection sees a poller token: its own UDP socket, one of
    /// its clients' sockets (named by stream id), or not its concern.
    pub fn match_token(&self, t: u64) -> (r: ConnEvent)
        requires
            self.wf(),
        ensures
            r is Udp <==> t == self.token,
            r is ClientStream <==> t != self.token && self.owns_token(t),
            r matches ConnEvent::ClientStream(sid) ==> self.has_client(sid) && self.client_at(
                sid,
            ).token == t,
            r is NotMine <==> t != self.token && !self.owns_token(t),
    {
        if t == self.token {
            return ConnEvent::Udp;
        }
        let n = self.clients.len();
        let mut i: usize = 0;
        while i < n
            invariant
                self.wf(),
                t != self.token,
                n == self.clients@.len(),
                i <= n,
                forall|k: int| 0 <= k < i ==> self.clients@[k].1.token != t,
            decreases n - i,
        {
            if self.clients[i].1.get_token() == t {
                proof {
                    self.lemma_client_at(i as int);
                    assert(self.owns_token(t));
                }
                return ConnEvent::ClientStream(self.clients[i].0);
            }
            i = i + 1;
        }
        proof {
            if self.owns_token(t) {
                let j = choose|j: int|
                    0 <= j < self.clients@.len() && self.clients@[j].1.token == t;
                assert(self.clients@[j].1.token != t);
            }
        }
        ConnEvent::NotMine
    }

    /// Records bytes the transport reported readable on stream `sid`,
    /// appending them to the stream's receive buffer: what a stream carries
    /// reaches its buffer in arrival order, with nothing lost or reordered.
    /// Data for a stream no client owns is retained all the same.
    pub fn accept_stream_data(&mut self, stream_id: u64, data: &[u8])
        requires
            old(self).wf(),
        ensures
            final(self).wf(),
            final(self).app_proto == old(self).app_proto,
            final(self).token == old(self).token,
            final(self).state == old(self).state,
            final(self).next_stream_id == old(self).next_stream_id,
            final(self).clients == old(self).clients,
            final(self).buffered(stream_id) == old(self).buffered(stream_id) + data@,
            forall|s: u64| s != stream_id ==> final(self).buffered(s) == old(self).buffered(s),
    {
        let found = self.find_buffer(stream_id);
        match found {
            Some(i) => {
                let ghost ord = self.received_data@;
                let mut pair = self.received_data.remove(i);
                pair.1.extend_from_slice(data);
                self.received_data.push(pair);
                proof {
                    lemma_rd_at(ord, i as int);
                    lemma_rd_update(
                        ord,
                        self.received_data@,
                        i as int,
                        self.received_data@.last().1,
                    );
                }
            },
            None => {
                let ghost ord = self.received_data@;
                self.received_data.push((stream_id, slice_to_vec(data)));
                proof {
                    lemma_rd_push_new(
                        ord,
                        self.received_data@,
                        stream_id,
                        self.received_data@.last().1,
                    );
                    assert(Seq::<u8>::empty() + data@ =~= data@);
                }
            },
        }
    }

    /// Removes the first `n` bytes of stream `sid`'s receive buffer once
    /// the client's socket has taken them: what remains is exactly the
    /// bytes not yet delivered, still in order.
    pub fn confirm_delivery(&mut self, stream_id: u64, n: usize)
        requires
            old(self).wf(),
            n <= old(self).buffered(stream_id).len(),
        ensures
            final(self).wf(),
            final(self).app_proto == old(self).app_proto,
            final(self).token == old(self).token,
            final(self).state == old(self).state,
            final(self).next_stream_id == old(self).next_stream_id,
            final(self).clients == old(self).clients,
            final(self).buffered(stream_id) == old(self).buffered(stream_id).skip(n as int),
            forall|s: u64| s != stream_id ==> final(self).buffered(s) == old(self).buffered(s),
    {
        let found = self.find_buffer(stream_id);
        match found {
            Some(i) => {
                let ghost ord = self.received_data@;
                proof {
                    lemma_rd_at(ord, i as int);
                }
                let mut pair = self.received_data.remove(i);
                let tail = pair.1.split_off(n);
                self.received_data.push((stream_id, tail));
                proof {
                    assert(self.received_data@.last().1@ =~= ord[i as int].1@.skip(n as int));
                    lemma_rd_update(
                        ord,
                        self.received_data@,
                        i as int,
                        self.received_data@.last().1,
                    );
                }
            },
            None => {
                proof {
                    assert(old(self).buffered(stream_id).skip(0) =~= old(self).buffered(
                        stream_id,
                    ));
                }
            },
        }
    }

    /// What delivering stream `sid`'s buffer would mean right now: there is
    /// no owning client (the bytes are retained), the buffer has outgrown
    /// the DATA header's 32-bit length field (a framing-length-overflow
    /// error, with the ERRO frame the client is owed), or a frame is ready
    /// along with the owning client's token.
    pub fn pending_delivery(&self, stream_id: u64) -> (r: DeliveryPlan)
        requires
            self.wf(),
        ensures
            r is NoClient <==> !self.has_client(stream_id),
            r is Overflow <==> self.has_client(stream_id) && self.buffered(stream_id).len()
                > u32::MAX,
            r matches DeliveryPlan::Overflow(t, f) ==> t == self.client_at(stream_id).token && f@
                == spec_erro_frame(overflow_text()),
            r is Frame <==> self.has_client(stream_id) && self.buffered(stream_id).len()
                <= u32::MAX,
            r matches DeliveryPlan::Frame(t, f) ==> t == self.client_at(stream_id).token && f@
                == crate::frame::spec_data_frame(self.buffered(stream_id)),
    {
        let ci = match self.find_client(stream_id) {
            None => {
                return DeliveryPlan::NoClient;
            },
            Some(ci) => ci,
        };
        let token = self.clients[ci].1.get_token();
        let bi = self.find_buffer(stream_id);
        match bi {
            None => {
                let empty: Vec<u8> = Vec::new();
                let f = crate::frame::encode_data_frame(empty.as_slice());
                proof {
                    assert(self.buffered(stream_id) =~= empty@);
                }
                DeliveryPlan::Frame(token, f)
            },
            Some(bi) => {
                proof {
                    lemma_rd_at(self.received_data@, bi as int);
                }
                if self.received_data[bi].1.len() > u32::MAX as usize {
                    DeliveryPlan::Overflow(
                        token,
                        encode_erro_frame("payload length exceeds the staging buffer"),
                    )
                } else {
                    let f = crate::frame::encode_data_frame(self.received_data[bi].1.as_slice());
                    DeliveryPlan::Frame(token, f)
                }
            },
        }
    }

    /// Applies what the transport reported after a drain of inbound
    /// datagrams. A close report aborts all clients: every remaining one is
    /// owed an ERRO frame, the state becomes Closed, and the manager will
    /// collect the connection. Otherwise, a peer error earns every client
    /// an ERRO frame; and the first establishment report moves a connecting
    /// connection to Established and earns every waiting client its OKOK
    /// frame. The state only ever moves forward. The error frames are
    /// written before the acknowledgements, as they arose.
    pub fn process_datagram(&mut self, closed: bool, peer_error: bool, established: bool) -> (r:
        DatagramReplies)
        requires
            old(self).wf(),
        ensures
            final(self).wf(),
            final(self).app_proto == old(self).app_proto,
            final(self).token == old(self).token,
            final(self).next_stream_id == old(self).next_stream_id,
            final(self).clients == old(self).clients,
            final(self).received_data == old(self).received_data,
            state_rank(final(self).state) >= state_rank(old(self).state),
            closed ==> final(self).state is Closed && r.acks@.len() == 0 && r.errors@.len()
                == old(self).clients@.len(),
            closed ==> (forall|i: int|
                #![trigger r.errors@[i]]
                0 <= i < old(self).clients@.len() ==> r.errors@[i].0 == old(
                    self,
                ).clients@[i].1.token && r.errors@[i].1@ == spec_erro_frame(closed_text())),
            !closed ==> final(self).state == (if established && old(self).state is Connecting {
                State::Established
            } else {
                old(self).state
            }),
            !closed && peer_error ==> r.errors@.len() == old(self).clients@.len(),
            !closed && !peer_error ==> r.errors@.len() == 0,
            !closed && peer_error ==> (forall|i: int|
                #![trigger r.errors@[i]]
                0 <= i < old(self).clients@.len() ==> r.errors@[i].0 == old(self).clients@[i].1.token && r.errors@[i].1@ == spec_erro_frame(peer_error_text())),
            !closed && established && old(self).state is Connecting ==> r.acks@.len() == old(self).clients@.len(),
            !closed && !(established && old(self).state is Connecting) ==> r.acks@.len() == 0,
            !closed && established && old(self).state is Connecting ==> (forall|i: int|
                #![trigger r.acks@[i]]
                0 <= i < old(self).clients@.len() ==> r.acks@[i].0 == old(self).clients@[i].1.token && r.acks@[i].1@ == okok_magic()),
    {
        let mut errors: Vec<(u64, Vec<u8>)> = Vec::new();
        let mut acks: Vec<(u64, Vec<u8>)> = Vec::new();
        if closed {
            let n = self.clients.len();
            let mut i: usize = 0;
            while i < n
                invariant
                    *self == *old(self),
                    self.wf(),
                    n == self.clients@.len(),
                    i <= n,
                    errors@.len() == i,
                    forall|k: int|
                        #![trigger errors@[k]]
                        0 <= k < i ==> errors@[k].0 == self.clients@[k].1.token && errors@[k].1@
                            == spec_erro_frame(closed_text()),
                decreases n - i,
            {
                let t = self.clients[i].1.get_token();
                let f = encode_erro_frame("Connection is closed");
                errors.push((t, f));
                i = i + 1;
            }
            self.state = State::Closed;
            return DatagramReplies { errors, acks };
        }
        if peer_error {
            let n = self.clients.len();
            let mut i: usize = 0;
            while i < n
                invariant
                    *self == *old(self),
                    self.wf(),
                    n == self.clients@.len(),
                    i <= n,
                    errors@.len() == i,
                    forall|k: int|
                        #![trigger errors@[k]]
                        0 <= k < i ==> errors@[k].0 == self.clients@[k].1.token && errors@[k].1@
                            == spec_erro_frame(peer_error_text()),
                decreases n - i,
            {
                let t = self.clients[i].1.get_token();
                let f = encode_erro_frame("Error occurred when establishing connection");
                errors.push((t, f));
                i = i + 1;
            }
        }
        if established {
            if matches!(self.state, State::Connecting) {
                self.state = State::Established;
                let n = self.clients.len();
                let mut i: usize = 0;
                while i < n
                    invariant
                        self.clients == old(self).clients,
                        self.app_proto == old(self).app_proto,
                        self.token == old(self).token,
                        self.next_stream_id == old(self).next_stream_id,
                        self.received_data == old(self).received_data,
                        self.state is Established,
                        self.wf(),
                        n == self.clients@.len(),
                        i <= n,
                        acks@.len() == i,
                        forall|k: int|
                            #![trigger acks@[k]]
                            0 <= k < i ==> acks@[k].0 == self.clients@[k].1.token && acks@[k].1@
                                == okok_magic(),
                    decreases n - i,
                {
                    let t = self.clients[i].1.get_token();
                    let f = encode_ok_frame();
                    acks.push((t, f));
                    i = i + 1;
                }
            }
        }
        DatagramReplies { errors, acks }
    }

    /// Handles readiness of one client's socket: `input` is what the socket
    /// read, and `stream_id` names the client it came from.
    ///
    /// An empty read (or a DATA message with no payload) means the client
    /// departed: its slot is removed and its token returned to the
    /// allocator, within this one call, and the connection's state is
    /// untouched. A malformed message aborts only that client the same way,
    /// with the ERRO frame to send it. A DATA message with payload stages
    /// the payload on the client's endpoint and yields the OKOK
    /// acknowledgement owed; the staged bytes then move to the QUIC stream
    /// through `fetch_databuf`.
    pub fn process_events(
        &mut self,
        stream_id: u64,
        input: &[u8],
        tokenmanager: &mut TokenManager,
    ) -> (r: ClientEventResult)
        requires
            old(self).wf(),
            old(tokenmanager).wf(),
        ensures
            final(self).wf(),
            final(tokenmanager).wf(),
            final(self).app_proto == old(self).app_proto,
            final(self).token == old(self).token,
            final(self).state == old(self).state,
            final(self).next_stream_id == old(self).next_stream_id,
            final(self).received_data == old(self).received_data,
            final(tokenmanager).next == old(tokenmanager).next,
            !old(self).has_client(stream_id) ==> (r is NoSuchClient && *final(self) == *old(self)
                && *final(tokenmanager) == *old(tokenmanager)),
            old(self).has_client(stream_id) && msg_departs(input@) ==> r is Departed,
            old(self).has_client(stream_id) && msg_error(input@) is Some ==> (
            r matches ClientEventResult::Failed(f) && f@ == spec_erro_frame(
                client_error_text(msg_error(input@)->0),
            )),
            old(self).has_client(stream_id) && (msg_departs(input@) || msg_error(input@) is Some)
                ==> ({
                &&& final(self).clients@ == old(self).clients@.remove(
                    old(self).client_index(stream_id),
                )
                &&& !final(tokenmanager).is_used(old(self).client_at(stream_id).token)
                &&& forall|u: u64|
                    u != old(self).client_at(stream_id).token ==> final(tokenmanager).is_used(u)
                        == old(tokenmanager).is_used(u)
            }),
            old(self).has_client(stream_id) && msg_stages(input@) ==> ({
                &&& r matches ClientEventResult::Staged(n, f) && n == spec_staged(input@).len()
                    && f@ == okok_magic()
                &&& *final(tokenmanager) == *old(tokenmanager)
                &&& final(self).clients@.len() == old(self).clients@.len()
                &&& forall|j: int|
                    0 <= j < old(self).clients@.len() && j != old(self).client_index(stream_id)
                        ==> final(self).clients@[j] == old(self).clients@[j]
                &&& final(self).clients@[old(self).client_index(stream_id)].0 == stream_id
                &&& final(self).clients@[old(self).client_index(stream_id)].1.token == old(self).client_at(stream_id).token
                &&& final(self).clients@[old(self).client_index(stream_id)].1.readbuf@
                    == spec_staged(input@)
            }),
    {
        let found = self.find_client(stream_id);
        let i = match found {
            None => {
                return ClientEventResult::NoSuchClient;
            },
            Some(i) => i,
        };
        let ghost pre = *self;
        let parse_res = {
            let elem = vec_index_mut(&mut self.clients, i);
            elem.1.process_control_msg(input)
        };
        proof {
            lemma_clients_update(pre, *self, i as int, self.clients@[i as int].1);
        }
        match parse_res {
            Ok(n) => {
                if n == 0 {
                    let tok = self.clients[i].1.get_token();
                    let ghost mid = *self;
                    self.clients.remove(i);
                    tokenmanager.free_token(tok);
                    proof {
                        assert(pre.clients@.update(i as int, mid.clients@[i as int]).remove(
                            i as int,
                        ) =~= pre.clients@.remove(i as int));
                        lemma_clients_remove(mid, *self, i as int);
                    }
                    ClientEventResult::Departed
                } else {
                    let f = encode_ok_frame();
                    ClientEventResult::Staged(n, f)
                }
            },
            Err(e) => {
                let msg = match e {
                    ClientError::ShortCommand => "could not read command",
                    ClientError::ShortLength => "could not read DATA length",
                    ClientError::UnknownCommand => "unknown command",
                };
                let f = encode_erro_frame(msg);
                let tok = self.clients[i].1.get_token();
                let ghost mid = *self;
                self.clients.remove(i);
                tokenmanager.free_token(tok);
                proof {
                    assert(pre.clients@.update(i as int, mid.clients@[i as int]).remove(i as int)
                        =~= pre.clients@.remove(i as int));
                    lemma_clients_remove(mid, *self, i as int);
                }
                ClientEventResult::Failed(f)
            },
        }
    }

    /// Takes the payload staged on stream `sid`'s client for the QUIC send
    /// step, leaving the client's staging buffer empty; nothing when no
    /// client owns the stream.
    pub fn fetch_databuf(&mut self, stream_id: u64) -> (r: Option<Vec<u8>>)
        requires
            old(self).wf(),
        ensures
            final(self).wf(),
            final(self).app_proto == old(self).app_proto,
            final(self).token == old(self).token,
            final(self).state == old(self).state,
            final(self).next_stream_id == old(self).next_stream_id,
            final(self).received_data == old(self).received_data,
            r is Some <==> old(self).has_client(stream_id),
            !old(self).has_client(stream_id) ==> *final(self) == *old(self),
            old(self).has_client(stream_id) ==> ({
                &&& r matches Some(b) && b@ == old(self).client_at(stream_id).readbuf@
                &&& final(self).clients@.len() == old(self).clients@.len()
                &&& forall|j: int|
                    0 <= j < old(self).clients@.len() && j != old(self).client_index(stream_id)
                        ==> final(self).clients@[j] == old(self).clients@[j]
                &&& final(self).clients@[old(self).client_index(stream_id)].0 == stream_id
                &&& final(self).clients@[old(self).client_index(stream_id)].1.token == old(self).client_at(stream_id).token
                &&& final(self).clients@[old(self).client_index(stream_id)].1.readbuf@.len() == 0
            }),
    {
        let found = self.find_client(stream_id);
        let i = match found {
            None => {
                return None;
            },
            Some(i) => i,
        };
        let ghost pre = *self;
        let buf = {
            let elem = vec_index_mut(&mut self.clients, i);
            elem.1.fetch_databuf()
        };
        proof {
            lemma_clients_update(pre, *self, i as int, self.clients@[i as int].1);
        }
        Some(buf)
    }

    /// Admits a new client, or refuses it.
    ///
    /// A client whose application protocol differs from this connection's is
    /// refused with exactly one ERRO frame and nothing changes: the protocol
    /// is negotiated at the handshake and cannot be mixed on one connection.
    /// Otherwise the client is admitted under the next stream id (stream ids
    /// stride by four), and when the connection is already established the
    /// OKOK frame to send it is returned along with the id; before the
    /// handshake completes there is nothing to send yet. The token must be
    /// freshly allocated: no endpoint of this connection holds it.
    pub fn add_client(&mut self, app_proto: &[u8], token: u64) -> (r: AddClientOutcome)
        requires
            old(self).wf(),
            token != old(self).token,
            forall|i: int|
                0 <= i < old(self).clients@.len() ==> (#[trigger] old(self).clients@[i].1).token
                    != token,
        ensures
            final(self).wf(),
            final(self).app_proto == old(self).app_proto,
            final(self).token == old(self).token,
            final(self).state == old(self).state,
            final(self).received_data == old(self).received_data,
            app_proto@ != old(self).app_proto@ ==> (r matches AddClientOutcome::Mismatch(f) && f@
                == spec_erro_frame(mismatch_text()) && *final(self) == *old(self)),
            app_proto@ == old(self).app_proto@ && old(self).next_stream_id > u64::MAX - 4 ==> (
            r matches AddClientOutcome::IdsExhausted(f) && f@ == spec_erro_frame(exhausted_text())
                && *final(self) == *old(self)),
            app_proto@ == old(self).app_proto@ && old(self).next_stream_id <= u64::MAX - 4 ==> (
            r matches AddClientOutcome::Admitted(sid, reply)
                && sid == old(self).next_stream_id
                && final(self).next_stream_id == old(self).next_stream_id + 4
                && final(self).clients@.len() == old(self).clients@.len() + 1
                && final(self).clients@.last().0 == sid
                && final(self).clients@.last().1.token == token
                && final(self).clients@.last().1.readbuf@.len() == 0
                && (forall|i: int|
                    0 <= i < old(self).clients@.len()
                        ==> final(self).clients@[i] == old(self).clients@[i])
                && (old(self).state is Established ==> (reply matches Some(f) && f@
                == okok_magic()))
                && (!(old(self).state is Established) ==> reply is None)),
    {
        if !bytes_eq(app_proto, self.app_proto.as_slice()) {
            return AddClientOutcome::Mismatch(
                encode_erro_frame("Application proto from new client does not match connection."),
            );
        }
        if self.next_stream_id > u64::MAX - 4 {
            return AddClientOutcome::IdsExhausted(encode_erro_frame("stream ids exhausted"));
        }
        let stream_id = self.next_stream_id;
        self.next_stream_id = self.next_stream_id + 4;
        let client = Client::new(token);
        let reply = if matches!(self.state, State::Established) {
            Some(encode_ok_frame())
        } else {
            None
        };
        self.clients.push((stream_id, client));
        proof {
            assert forall|i: int, j: int|
                0 <= i < j < self.clients@.len() implies self.clients@[i].0
                != self.clients@[j].0 by {
                if j < self.clients@.len() - 1 {
                    assert(old(self).clients@[i].0 != old(self).clients@[j].0);
                } else {
                    assert(self.clients@[i].0 < stream_id);
                }
            }
            assert forall|i: int, j: int|
                0 <= i < j < self.clients@.len() implies self.clients@[i].1.token
                != self.clients@[j].1.token by {
                if j < self.clients@.len() - 1 {
                    assert(old(self).clients@[i].1.token != old(self).clients@[j].1.token);
                } else {
                    assert(old(self).clients@[i].1.token != token);
                }
            }
        }
        AddClientOutcome::Admitted(stream_id, reply)
    }
}

/// How a connection classifies a ready poller token: readiness of its own
/// UDP socket, of one client's socket, or of something it does not own.
#[derive(Debug, PartialEq, Eq, Clone, Copy)]
pub enum ConnEvent {
    Udp,
    ClientStream(u64),
    NotMine,
}

/// What admission decided: a protocol mismatch with the ERRO frame to send
/// back, stream-id space exhausted with its ERRO frame, or admission with
/// the new stream id and, on an established connection, the OKOK frame owed
/// to the new client at once.
#[derive(Debug)]
pub enum AddClientOutcome {
    Mismatch(Vec<u8>),
    IdsExhausted(Vec<u8>),
    Admitted(u64, Option<Vec<u8>>),
}

/// The frames owed to clients after a drain of inbound datagrams: ERRO
/// frames first (a peer error tells every client), then OKOK
/// acknowledgements (the handshake just completed and every waiting client
/// learns so). Each is paired with the poller token of the socket to write
/// it on.
pub struct DatagramReplies {
    pub errors: Vec<(u64, Vec<u8>)>,
    pub acks: Vec<(u64, Vec<u8>)>,
}

/// What delivering a stream's buffered bytes to its client would mean: no
/// client owns the stream; the buffer no longer fits one DATA frame's
/// 32-bit length field, with the ERRO frame owed to the owning client; or
/// the DATA frame to write and the token of the socket to write it on.
#[derive(Debug)]
pub enum DeliveryPlan {
    NoClient,
    Overflow(u64, Vec<u8>),
    Frame(u64, Vec<u8>),
}

/// The diagnostic sent when a stream's receive buffer has outgrown the
/// DATA header's 32-bit length field.
pub open spec fn overflow_text() -> Seq<u8> {
    "payload length exceeds the staging buffer".spec_bytes()
}

/// What handling one client socket's readiness produced: the stream id
/// named no client; the client departed (its slot and token were released);
/// a payload of the returned size was staged and the OKOK acknowledgement
/// is owed; or the message was malformed, the client was dropped, and the
/// ERRO frame to send it on the way out is returned.
#[derive(Debug)]
pub enum ClientEventResult {
    NoSuchClient,
    Departed,
    Staged(usize, Vec<u8>),
    Failed(Vec<u8>),
}

/// The full effect of applying one drain's transport reports (`closed`,
/// `peer_error`, `established`) to a connection: how `pre` became `post`
/// and which reply frames `r` are owed to which clients. This is the
/// contract of `Connection::process_datagram`, named so the manager can
/// promise the same of the connection it forwards to.
pub open spec fn datagram_step(
    pre: Connection,
    post: Connection,
    closed: bool,
    peer_error: bool,
    established: bool,
    r: DatagramReplies,
) -> bool {
    &&& post.wf()
    &&& post.app_proto == pre.app_proto
    &&& post.token == pre.token
    &&& post.next_stream_id == pre.next_stream_id
    &&& post.clients == pre.clients
    &&& post.received_data == pre.received_data
    &&& state_rank(post.state) >= state_rank(pre.state)
    &&& (closed ==> post.state is Closed && r.acks@.len() == 0 && r.errors@.len()
        == pre.clients@.len())
    &&& (closed ==> (forall|i: int|
        #![trigger r.errors@[i]]
        0 <= i < pre.clients@.len() ==> r.errors@[i].0 == pre.clients@[i].1.token
            && r.errors@[i].1@ == spec_erro_frame(closed_text())))
    &&& (!closed ==> post.state == (if established && pre.state is Connecting {
        State::Established
    } else {
        pre.state
    }))
    &&& (!closed && peer_error ==> r.errors@.len() == pre.clients@.len())
    &&& (!closed && !peer_error ==> r.errors@.len() == 0)
    &&& (!closed && peer_error ==> (forall|i: int|
        #![trigger r.errors@[i]]
        0 <= i < pre.clients@.len() ==> r.errors@[i].0 == pre.clients@[i].1.token
            && r.errors@[i].1@ == spec_erro_frame(peer_error_text())))
    &&& (!closed && established && pre.state is Connecting ==> r.acks@.len()
        == pre.clients@.len())
    &&& (!closed && !(established && pre.state is Connecting) ==> r.acks@.len() == 0)
    &&& (!closed && established && pre.state is Connecting ==> (forall|i: int|
        #![trigger r.acks@[i]]
        0 <= i < pre.clients@.len() ==> r.acks@[i].0 == pre.clients@[i].1.token && r.acks@[i].1@
            == okok_magic()))
}

/// The full effect of handling one client socket's readiness: how the
/// connection and the token allocator changed and what the result reports.
/// This is the contract of `Connection::process_events`, named so the
/// manager can promise the same of the connection it forwards to.
pub open spec fn client_event_step(
    pre: Connection,
    post: Connection,
    tm_pre: TokenManager,
    tm_post: TokenManager,
    stream_id: u64,
    input: Seq<u8>,
    r: ClientEventResult,
) -> bool {
    &&& post.wf()
    &&& tm_post.wf()
    &&& post.app_proto == pre.app_proto
    &&& post.token == pre.token
    &&& post.state == pre.state
    &&& post.next_stream_id == pre.next_stream_id
    &&& post.received_data == pre.received_data
    &&& tm_post.next == tm_pre.next
    &&& (!pre.has_client(stream_id) ==> (r is NoSuchClient && post == pre && tm_post == tm_pre))
    &&& (pre.has_client(stream_id) && msg_departs(input) ==> r is Departed)
    &&& (pre.has_client(stream_id) && msg_error(input) is Some ==> (
    r matches ClientEventResult::Failed(f) && f@ == spec_erro_frame(
        client_error_text(msg_error(input)->0),
    )))
    &&& (pre.has_client(stream_id) && (msg_departs(input) || msg_error(input) is Some) ==> ({
        &&& post.clients@ == pre.clients@.remove(pre.client_index(stream_id))
        &&& !tm_post.is_used(pre.client_at(stream_id).token)
        &&& forall|u: u64|
            u != pre.client_at(stream_id).token ==> tm_post.is_used(u) == tm_pre.is_used(u)
    }))
    &&& (pre.has_client(stream_id) && msg_stages(input) ==> ({
        &&& r matches ClientEventResult::Staged(n, f) && n == spec_staged(input).len() && f@
            == okok_magic()
        &&& tm_post == tm_pre
        &&& post.clients@.len() == pre.clients@.len()
        &&& forall|j: int|
            0 <= j < pre.clients@.len() && j != pre.client_index(stream_id)
                ==> post.clients@[j] == pre.clients@[j]
        &&& post.clients@[pre.client_index(stream_id)].0 == stream_id
        &&& post.clients@[pre.client_index(stream_id)].1.token == pre.client_at(stream_id).token
        &&& post.clients@[pre.client_index(stream_id)].1.readbuf@ == spec_staged(input)
    }))
}

/// A connection's lifecycle never reverses: one datagram-processing step
/// can only keep the state or move it towards Closed, and a step can only
/// land on Established from Connecting or Established — so a connection
/// seen Established was Connecting before its handshake completed.
pub proof fn lemma_state_never_reverses(
    pre: Connection,
    post: Connection,
    closed: bool,
    peer_error: bool,
    established: bool,
    r: DatagramReplies,
)
    requires
        datagram_step(pre, post, closed, peer_error, established, r),
    ensures
        state_rank(post.state) >= state_rank(pre.state),
        post.state is Established ==> (pre.state is Connecting || pre.state is Established),
{
}

/// Within one connection every client's stream id is a positive multiple
/// of four (the client-initiated bidirectional id space), and two distinct
/// clients never share a stream id.
pub proof fn lemma_stream_ids_valid(c: Connection, i: int, j: int)
    requires
        c.wf(),
        0 <= i < c.clients@.len(),
        0 <= j < c.clients@.len(),
        i != j,
    ensures
        c.clients@[i].0 % 4 == 0,
        c.clients@[i].0 >= 4,
        c.clients@[i].0 != c.clients@[j].0,
{
    if i < j {
        assert(c.clients@[i].0 != c.clients@[j].0);
    } else {
        assert(c.clients@[j].0 != c.clients@[i].0);
    }
}

/// Bytes reach a stream's receive buffer in arrival order: two successive
/// deliveries append their bytes in sequence, never interleaved or
/// reordered, so what the owning client reads is the stream's bytes as
/// they arrived.
pub proof fn lemma_arrival_order(
    pre: Connection,
    mid: Connection,
    post: Connection,
    sid: u64,
    d1: Seq<u8>,
    d2: Seq<u8>,
)
    requires
        mid.buffered(sid) == pre.buffered(sid) + d1,
        post.buffered(sid) == mid.buffered(sid) + d2,
    ensures
        post.buffered(sid) == pre.buffered(sid) + (d1 + d2),
{
    assert(pre.buffered(sid) + (d1 + d2) =~= (pre.buffered(sid) + d1) + d2);
}

/// The diagnostic for each way a client's control message can be bad.
pub open spec fn client_error_text(e: ClientError) -> Seq<u8> {
    match e {
        ClientError::ShortCommand => "could not read command".spec_bytes(),
        ClientError::ShortLength => "could not read DATA length".spec_bytes(),
        ClientError::UnknownCommand => "unknown command".spec_bytes(),
    }
}

/// Removing one client keeps the connection well formed.
proof fn lemma_clients_remove(pre: Connection, post: Connection, i: int)
    requires
        pre.wf(),
        0 <= i < pre.clients@.len(),
        post.clients@ == pre.clients@.remove(i),
        post.token == pre.token,
        post.next_stream_id == pre.next_stream_id,
        post.received_data == pre.received_data,
    ensures
        post.wf(),
{
    let ocl = pre.clients@;
    let ncl = post.clients@;
    assert(ncl.len() == ocl.len() - 1);
    assert(forall|k: int| 0 <= k < i ==> ncl[k] == ocl[k]);
    assert(forall|k: int| i <= k < ncl.len() ==> ncl[k] == ocl[k + 1]);
    assert forall|a: int| 0 <= a < ncl.len() implies (#[trigger] ncl[a].0) % 4 == 0 && 4
        <= ncl[a].0 < post.next_stream_id && ncl[a].1.wf() && ncl[a].1.token != post.token by {
        if a < i {
            assert(ncl[a] == ocl[a]);
        } else {
            assert(ncl[a] == ocl[a + 1]);
        }
    }
    assert forall|a: int, b: int| 0 <= a < b < ncl.len() implies ncl[a].0 != ncl[b].0 && ncl[a].1.token
        != ncl[b].1.token by {
        if b < i {
            assert(ncl[a] == ocl[a] && ncl[b] == ocl[b]);
        } else if a < i {
            assert(ncl[a] == ocl[a] && ncl[b] == ocl[b + 1]);
        } else {
            assert(ncl[a] == ocl[a + 1] && ncl[b] == ocl[b + 1]);
        }
    }
}

/// Replacing one client's endpoint, key and token unchanged, keeps the
/// connection well formed.
proof fn lemma_clients_update(pre: Connection, post: Connection, i: int, c: Client)
    requires
        pre.wf(),
        0 <= i < pre.clients@.len(),
        post.clients@ == pre.clients@.update(i, (pre.clients@[i].0, c)),
        c.wf(),
        c.token == pre.clients@[i].1.token,
        post.token == pre.token,
        post.next_stream_id == pre.next_stream_id,
        post.received_data == pre.received_data,
    ensures
        post.wf(),
{
    let ocl = pre.clients@;
    let ncl = post.clients@;
    assert(ncl.len() == ocl.len());
    assert(forall|k: int| 0 <= k < ncl.len() && k != i ==> ncl[k] == ocl[k]);
    assert(ncl[i].0 == ocl[i].0 && ncl[i].1.token == ocl[i].1.token && ncl[i].1.wf());
    assert forall|a: int| 0 <= a < ncl.len() implies (#[trigger] ncl[a].0) % 4 == 0 && 4
        <= ncl[a].0 < post.next_stream_id && ncl[a].1.wf() && ncl[a].1.token != post.token by {
        assert(ncl[a].0 == ocl[a].0 && ncl[a].1.token == ocl[a].1.token);
        if a != i {
            assert(ncl[a] == ocl[a]);
        }
    }
    assert forall|a: int, b: int| 0 <= a < b < ncl.len() implies ncl[a].0 != ncl[b].0 && ncl[a].1.token
        != ncl[b].1.token by {
        assert(ncl[a].0 == ocl[a].0 && ncl[a].1.token == ocl[a].1.token);
        assert(ncl[b].0 == ocl[b].0 && ncl[b].1.token == ocl[b].1.token);
    }
}

/// Relies on ring's SystemRandom: `fill` fills the buffer with
/// cryptographically secure random bytes and reports whether it succeeded;
/// the buffer keeps its length. Nothing is assumed about the bytes
/// themselves.
#[verifier::external_body]
fn fill_random(buf: &mut Vec<u8>) -> (r: bool)
    ensures
        final(buf)@.len() == old(buf)@.len(),
{
    let rng = ring::rand::SystemRandom::new();
    ring::rand::SecureRandom::fill(&rng, buf.as_mut_slice()).is_ok()
}

/// The position of the first IPv4 result among the resolved addresses of a
/// destination, given as their address-family flags: name resolution may
/// return several addresses, and the daemon uses only the first IPv4 one.
pub fn pick_first_ipv4(is_ipv4: &Vec<bool>) -> (r: Option<usize>)
    ensures
        r is Some <==> (exists|i: int| 0 <= i < is_ipv4@.len() && is_ipv4@[i]),
        r matches Some(i) ==> i < is_ipv4@.len() && is_ipv4@[i as int] && (forall|k: int|
            0 <= k < i ==> !is_ipv4@[k]),
{
    let n = is_ipv4.len();
    let mut i: usize = 0;
    while i < n
        invariant
            n == is_ipv4@.len(),
            i <= n,
            forall|k: int| 0 <= k < i ==> !is_ipv4@[k],
        decreases n - i,
    {
        if is_ipv4[i] {
            return Some(i);
        }
        i = i + 1;
    }
    proof {
        if exists|j: int| 0 <= j < is_ipv4@.len() && is_ipv4@[j] {
            let j = choose|j: int| 0 <= j < is_ipv4@.len() && is_ipv4@[j];
            assert(!is_ipv4@[j]);
        }
    }
    None
}

/// A fresh random source connection id of the transport's required length,
/// or nothing when the system's randomness source fails.
pub fn fresh_scid() -> (r: Option<Vec<u8>>)
    ensures
        r matches Some(b) ==> b@.len() == CONN_ID_LEN,
{
    let mut b: Vec<u8> = Vec::new();
    let mut i: usize = 0;
    while i < CONN_ID_LEN
        invariant
            b@.len() == i,
            i <= CONN_ID_LEN,
        decreases CONN_ID_LEN - i,
    {
        b.push(0u8);
        i = i + 1;
    }
    if fill_random(&mut b) {
        Some(b)
    } else {
        None
    }
}

/// The diagnostic sent to every client when the peer reports an error on
/// the shared connection.
pub open spec fn peer_error_text() -> Seq<u8> {
    "Error occurred when establishing connection".spec_bytes()
}

/// The diagnostic sent to every remaining client when the transport
/// reports the shared connection closed.
pub open spec fn closed_text() -> Seq<u8> {
    "Connection is closed".spec_bytes()
}

/// The diagnostic sent when a newcomer's application protocol differs from
/// the connection's.
pub open spec fn mismatch_text() -> Seq<u8> {
    "Application proto from new client does not match connection.".spec_bytes()
}

/// The diagnostic sent when the stream-id space is exhausted.
pub open spec fn exhausted_text() -> Seq<u8> {
    "stream ids exhausted".spec_bytes()
}

/// No two entries of a receive-buffer list carry the same stream id.
pub open spec fn rd_keys_unique(rd: Seq<(u64, Vec<u8>)>) -> bool {
    forall|i: int, j: int| 0 <= i < j < rd.len() ==> rd[i].0 != rd[j].0
}

/// Whether some entry carries stream id `s`.
pub open spec fn rd_has(rd: Seq<(u64, Vec<u8>)>, s: u64) -> bool {
    exists|i: int| 0 <= i < rd.len() && rd[i].0 == s
}

/// The position of stream id `s`'s entry.
pub open spec fn rd_index(rd: Seq<(u64, Vec<u8>)>, s: u64) -> int {
    choose|i: int| 0 <= i < rd.len() && rd[i].0 == s
}

/// The bytes buffered for stream id `s`; empty when no entry exists.
pub open spec fn rd_at(rd: Seq<(u64, Vec<u8>)>, s: u64) -> Seq<u8> {
    if rd_has(rd, s) {
        rd[rd_index(rd, s)].1@
    } else {
        Seq::empty()
    }
}

/// With unique keys, any position holding `s` is the position `rd_index`
/// names.
pub proof fn lemma_rd_at(rd: Seq<(u64, Vec<u8>)>, i: int)
    requires
        rd_keys_unique(rd),
        0 <= i < rd.len(),
    ensures
        rd_has(rd, rd[i].0),
        rd_index(rd, rd[i].0) == i,
        rd_at(rd, rd[i].0) == rd[i].1@,
{
    let s = rd[i].0;
    assert(rd_has(rd, s));
    let j = rd_index(rd, s);
    if i < j {
        assert(rd[i].0 != rd[j].0);
    } else if j < i {
        assert(rd[j].0 != rd[i].0);
    }
}

/// Replacing the bytes of one entry (moving it to the back) keeps the keys
/// unique, keeps every stream's presence, rebinds the touched stream to the
/// new bytes, and leaves every other stream's bytes alone.
pub proof fn lemma_rd_update(ord: Seq<(u64, Vec<u8>)>, nrd: Seq<(u64, Vec<u8>)>, i: int, v: Vec<u8>)
    requires
        rd_keys_unique(ord),
        0 <= i < ord.len(),
        nrd == ord.remove(i).push((ord[i].0, v)),
    ensures
        rd_keys_unique(nrd),
        forall|s: u64| rd_has(nrd, s) == rd_has(ord, s),
        rd_at(nrd, ord[i].0) == v@,
        forall|s: u64| s != ord[i].0 ==> rd_at(nrd, s) == rd_at(ord, s),
{
    let sid = ord[i].0;
    let len = ord.len() as int;
    assert(nrd.len() == len);
    assert(forall|k: int| 0 <= k < i ==> nrd[k] == ord[k]);
    assert(forall|k: int| i <= k < len - 1 ==> nrd[k] == ord[k + 1]);
    assert(nrd[len - 1] == (sid, v));
    assert forall|a: int, b: int| 0 <= a < b < nrd.len() implies nrd[a].0 != nrd[b].0 by {
        if b < len - 1 {
            if a < i {
                if b < i {
                    assert(ord[a].0 != ord[b].0);
                } else {
                    assert(ord[a].0 != ord[b + 1].0);
                }
            } else {
                assert(ord[a + 1].0 != ord[b + 1].0);
            }
        } else {
            if a < i {
                assert(ord[a].0 != ord[i].0);
            } else {
                assert(ord[i].0 != ord[a + 1].0);
            }
        }
    }
    assert forall|s: u64| rd_has(nrd, s) implies rd_has(ord, s) by {
        let k = choose|k: int| 0 <= k < nrd.len() && nrd[k].0 == s;
        if k < i {
            assert(ord[k].0 == s);
        } else if k < len - 1 {
            assert(ord[k + 1].0 == s);
        } else {
            assert(ord[i].0 == s);
        }
    }
    assert forall|s: u64| rd_has(ord, s) implies rd_has(nrd, s) by {
        let k = choose|k: int| 0 <= k < ord.len() && ord[k].0 == s;
        if k < i {
            assert(nrd[k].0 == s);
        } else if k == i {
            assert(nrd[len - 1].0 == s);
        } else {
            assert(nrd[k - 1].0 == s);
        }
    }
    lemma_rd_at(nrd, len - 1);
    assert forall|s: u64| s != sid implies rd_at(nrd, s) == rd_at(ord, s) by {
        if rd_has(ord, s) {
            let k = choose|k: int| 0 <= k < ord.len() && ord[k].0 == s;
            lemma_rd_at(ord, k);
            if k < i {
                lemma_rd_at(nrd, k);
            } else {
                assert(k != i);
                assert(nrd[k - 1] == ord[k]);
                lemma_rd_at(nrd, k - 1);
            }
        }
    }
}

/// Appending an entry for a stream that had none keeps the keys unique,
/// binds that stream to the new bytes, and leaves every other stream alone.
pub proof fn lemma_rd_push_new(
    ord: Seq<(u64, Vec<u8>)>,
    nrd: Seq<(u64, Vec<u8>)>,
    s0: u64,
    v: Vec<u8>,
)
    requires
        rd_keys_unique(ord),
        !rd_has(ord, s0),
        nrd == ord.push((s0, v)),
    ensures
        rd_keys_unique(nrd),
        forall|s: u64| rd_has(nrd, s) == (rd_has(ord, s) || s == s0),
        rd_at(nrd, s0) == v@,
        forall|s: u64| s != s0 ==> rd_at(nrd, s) == rd_at(ord, s),
{
    let len = ord.len() as int;
    assert(forall|k: int| 0 <= k < len ==> nrd[k] == ord[k]);
    assert(nrd[len] == (s0, v));
    assert forall|a: int, b: int| 0 <= a < b < nrd.len() implies nrd[a].0 != nrd[b].0 by {
        if b < len {
            assert(ord[a].0 != ord[b].0);
        } else {
            if nrd[a].0 == s0 {
                assert(ord[a].0 == s0);
                assert(rd_has(ord, s0));
            }
        }
    }
    assert forall|s: u64| rd_has(nrd, s) implies (rd_has(ord, s) || s == s0) by {
        let k = choose|k: int| 0 <= k < nrd.len() && nrd[k].0 == s;
        if k < len {
            assert(ord[k].0 == s);
        }
    }
    assert forall|s: u64| rd_has(ord, s) implies rd_has(nrd, s) by {
        let k = choose|k: int| 0 <= k < ord.len() && ord[k].0 == s;
        assert(nrd[k].0 == s);
    }
    lemma_rd_at(nrd, len);
    assert forall|s: u64| s != s0 implies rd_at(nrd, s) == rd_at(ord, s) by {
        if rd_has(ord, s) {
            let k = choose|k: int| 0 <= k < ord.len() && ord[k].0 == s;
            lemma_rd_at(ord, k);
            lemma_rd_at(nrd, k);
        }
    }
}

/// Whether two byte strings hold the same bytes.
pub fn bytes_eq(a: &[u8], b: &[u8]) -> (r: bool)
    ensures
        r == (a@ == b@),
{
    if a.len() != b.len() {
        return false;
    }
    let n = a.len();
    let mut i: usize = 0;
    while i < n
        invariant
            n == a@.len(),
            a@.len() == b@.len(),
            i <= n,
            forall|k: int| 0 <= k < i ==> a@[k] == b@[k],
        decreases n - i,
    {
        if *slice_index_get(a, i) != *slice_index_get(b, i) {
            return false;
        }
        i = i + 1;
    }
    proof {
        assert(a@ =~= b@);
    }
    true
}

} // verus!
