//! The daemon-side endpoint of one client process.
//!
//! Each accepted local-IPC socket gets one `Client`, which owns the socket's
//! poller token and a staging buffer holding at most one inbound DATA payload
//! between the control-message parse and the QUIC send step. The socket
//! itself, and all reads and writes on it, live outside the library; the
//! endpoint works on the bytes they carry.

use vstd::prelude::*;

verus! {

use vstd::slice::slice_index_get;
use vstd::slice::slice_subrange;
use vstd::slice::slice_to_vec;
use crate::frame::data_magic;
use crate::frame::spec_data_frame;
use crate::frame::encode_data_frame;

/// The staging buffer holds at most 64 KiB.
pub const MAX_STAGED: usize = 65535;

/// The ways one client's control message can be unacceptable: a command
/// shorter than the 4 required bytes, a DATA frame whose length field is cut
/// short, or a command word other than `DATA`.
#[derive(Debug, PartialEq, Eq, Clone, Copy)]
pub enum ClientError {
    ShortCommand,
    ShortLength,
    UnknownCommand,
}

/// The payload staged by a DATA control message whose bytes are `input`:
/// whatever follows the 8 header bytes, cut to the staging buffer's size.
pub open spec fn spec_staged(input: Seq<u8>) -> Seq<u8> {
    if input.len() - 8 <= MAX_STAGED {
        input.skip(8)
    } else {
        input.subrange(8, 8 + MAX_STAGED as int)
    }
}

/// The error, if any, that interpreting a control message of these bytes
/// reports: a short command, a command other than `DATA`, or a DATA header
/// whose length field is cut short. An empty read is no error.
pub open spec fn msg_error(input: Seq<u8>) -> Option<ClientError> {
    if input.len() == 0 {
        None
    } else if input.len() < 4 {
        Some(ClientError::ShortCommand)
    } else if input.subrange(0, 4) != data_magic() {
        Some(ClientError::UnknownCommand)
    } else if input.len() < 8 {
        Some(ClientError::ShortLength)
    } else {
        None
    }
}

/// Whether a control message of these bytes means the client is gone: the
/// socket read nothing, or a DATA message carried no payload.
pub open spec fn msg_departs(input: Seq<u8>) -> bool {
    input.len() == 0 || (input.len() >= 8 && input.subrange(0, 4) == data_magic() && spec_staged(
        input,
    ).len() == 0)
}

/// Whether a control message of these bytes stages payload to forward: a
/// DATA message with at least one payload byte.
pub open spec fn msg_stages(input: Seq<u8>) -> bool {
    input.len() >= 8 && input.subrange(0, 4) == data_magic() && spec_staged(input).len() > 0
}

/// One client process's endpoint: its poller token and the staging buffer
/// for the payload it most recently sent.
pub struct Client {
    pub token: u64,
    pub readbuf: Vec<u8>,
}

impl Client {
    /// The staging buffer never outgrows its 64 KiB bound.
    pub open spec fn wf(self) -> bool {
        self.readbuf@.len() <= MAX_STAGED
    }

    /// A fresh endpoint owning the given poller token, with nothing staged.
    pub fn new(token: u64) -> (r: Client)
        ensures
            r.wf(),
            r.token == token,
            r.readbuf@.len() == 0,
    {
        Client { token, readbuf: Vec::new() }
    }

    /// The poller token this endpoint's socket is registered under.
    pub fn get_token(&self) -> (t: u64)
        ensures
            t == self.token,
    {
        self.token
    }

    /// Interprets one control message read from this client's socket.
    ///
    /// An empty read means the peer closed the socket: the result is 0 and
    /// nothing changes. Fewer than four bytes cannot hold a command; a
    /// `DATA` command must be followed by its 4-byte length field. A valid
    /// DATA message stages the bytes that follow the header (cut to the
    /// staging buffer's size) and returns how many were staged; any other
    /// command word is refused.
    pub fn process_control_msg(&mut self, input: &[u8]) -> (r: Result<usize, ClientError>)
        requires
            old(self).wf(),
        ensures
            final(self).token == old(self).token,
            final(self).wf(),
            input@.len() == 0 ==> (r matches Ok(n) && n == 0 && *final(self) == *old(self)),
            0 < input@.len() < 4 ==> r == Err::<usize, ClientError>(ClientError::ShortCommand)
                && *final(self) == *old(self),
            input@.len() >= 4 && input@.subrange(0, 4) != data_magic() ==> r == Err::<
                usize,
                ClientError,
            >(ClientError::UnknownCommand) && *final(self) == *old(self),
            4 <= input@.len() < 8 && input@.subrange(0, 4) == data_magic() ==> r == Err::<
                usize,
                ClientError,
            >(ClientError::ShortLength) && *final(self) == *old(self),
            input@.len() >= 8 && input@.subrange(0, 4) == data_magic() ==> (r matches Ok(n) && n
                == spec_staged(input@).len() && final(self).readbuf@ == spec_staged(input@)),
    {
        let len = input.len();
        if len == 0 {
            return Ok(0);
        }
        if len < 4 {
            return Err(ClientError::ShortCommand);
        }
        let is_data = *slice_index_get(input, 0) == 0x44u8 && *slice_index_get(input, 1)
            == 0x41u8 && *slice_index_get(input, 2) == 0x54u8 && *slice_index_get(input, 3)
            == 0x41u8;
        proof {
            let m = input@.subrange(0, 4);
            assert(m[0] == input@[0] && m[1] == input@[1] && m[2] == input@[2] && m[3]
                == input@[3]);
            if is_data {
                assert(m =~= data_magic());
            } else {
                if m == data_magic() {
                    assert(m[0] == 0x44u8 && m[1] == 0x41u8 && m[2] == 0x54u8 && m[3] == 0x41u8);
                }
            }
        }
        if !is_data {
            return Err(ClientError::UnknownCommand);
        }
        if len < 8 {
            return Err(ClientError::ShortLength);
        }
        let avail = len - 8;
        let n = if avail <= MAX_STAGED {
            avail
        } else {
            MAX_STAGED
        };
        let payload = slice_to_vec(slice_subrange(input, 8, 8 + n));
        proof {
            if avail <= MAX_STAGED {
                assert(input@.subrange(8, 8 + n as int) =~= input@.skip(8));
            }
        }
        self.readbuf = payload;
        Ok(n)
    }

    /// Hands back the staged payload and leaves the staging buffer empty.
    pub fn fetch_databuf(&mut self) -> (r: Vec<u8>)
        ensures
            r@ == old(self).readbuf@,
            final(self).readbuf@.len() == 0,
            final(self).token == old(self).token,
            final(self).wf(),
    {
        let mut out: Vec<u8> = Vec::new();
        core::mem::swap(&mut out, &mut self.readbuf);
        out
    }

    /// The framed form of bytes delivered to this client: a DATA header for
    /// their length, then the bytes. What reaches the client's socket is
    /// exactly this frame.
    pub fn deliver_data(&self, data: &[u8]) -> (frame: Vec<u8>)
        requires
            data@.len() <= u32::MAX,
        ensures
            frame@ == spec_data_frame(data@),
    {
        encode_data_frame(data)
    }
}

} // verus!
