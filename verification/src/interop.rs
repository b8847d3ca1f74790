use vstd::prelude::*;
use crate::game::{Input, PlayerId};

verus! {

/// The four bytes that open a client's greeting.
pub const INIT_MESSAGE: [u8; 4] = [104, 101, 108, 111];

/// The protocol version this library speaks.
pub const CURRENT_VERSION: u8 = 1;

/// A client's greeting: the opening bytes and the protocol version it speaks.
#[derive(Debug, Clone, Copy)]
pub struct ClientHello {
    header: [u8; 4],
    version: u8,
}

impl Default for ClientHello {
    fn default() -> (r: Self)
        ensures
            r.spec_header() == INIT_MESSAGE@,
            r.spec_version() == CURRENT_VERSION,
    {
        ClientHello { header: INIT_MESSAGE, version: CURRENT_VERSION }
    }
}

impl ClientHello {
    pub closed spec fn spec_header(&self) -> Seq<u8> {
        self.header@
    }

    pub closed spec fn spec_version(&self) -> u8 {
        self.version
    }

    /// A greeting with the given opening bytes and version.
    pub fn new(header: [u8; 4], version: u8) -> (r: Self)
        ensures
            r.spec_header() == header@,
            r.spec_version() == version,
    {
        ClientHello { header, version }
    }

    /// The greeting opens with the expected bytes and speaks at least `required_version`.
    pub fn check(&self, required_version: u8) -> (r: bool)
        ensures
            r == (self.spec_header() == INIT_MESSAGE@ && self.spec_version() >= required_version),
    {
        let h = self.header;
        let m = INIT_MESSAGE;
        let same = h[0] == m[0] && h[1] == m[1] && h[2] == m[2] && h[3] == m[3];
        proof {
            if same {
                assert(h@ =~= m@);
            }
        }
        same && self.version >= required_version
    }
}

#[derive(Debug, Clone, Copy, PartialEq, Eq, Structural)]
pub struct InitServerResponse {
    pub server_version: u8,
    pub player_count: u8,
    pub seed: u32,
    pub player_id: PlayerId,
}

#[derive(Debug, Clone, Copy, PartialEq, Eq, Structural)]
pub struct ServerDescription {
    pub server_version: u8,
    pub seed: u32,
}

#[derive(Debug, Clone, Copy, PartialEq, Eq, Structural)]
pub struct ClientTick {
    pub time_us: u32,
    pub input: Input,
    pub lobby_ready: bool,
}

#[derive(Debug, Clone, Copy, PartialEq, Eq, Structural)]
pub struct TimeRequestPacket {
    pub client_send_time_us: u32,
}

#[derive(Debug, Clone, Copy, PartialEq, Eq, Structural)]
pub struct TimeRequestIntermediate {
    pub client_send_time_us: u32,
    pub server_receive_time_us: u32,
    /// The server's own handle on the socket the request came through.
    pub socket_id: u32,
}

#[derive(Debug, Clone, Copy, PartialEq, Eq, Structural)]
pub struct TimeResponsePacket {
    pub client_send_time_us: u32,
    pub server_receive_time_us: u32,
    pub server_send_time_us: u32,
}

#[derive(Debug, Clone, Copy, PartialEq, Eq, Structural)]
pub struct TimeRequestEnd {
    pub client_send_time_us: u32,
    pub client_receive_time_us: u32,
    pub server_receive_time_us: u32,
    pub server_send_time_us: u32,
}

} // verus!
