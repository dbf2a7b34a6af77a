//! Transport-level values shared with the connection code: the endpoint path and errors.

use vstd::prelude::*;
use vstd::string::StringExecFns;

use crate::cli::{digits, push_digits};

verus! {

/// Path of the connection endpoint.
pub const CONNECT_PATH: &'static str = "/ai-battle/v1/connect";

/// An I/O error of the connection (kept opaque).
#[verifier::external_type_specification]
#[verifier::external_body]
pub struct ExIoError(std::io::Error);

/// Errors of the transport (a bot builds only `Unexpected`).
#[derive(Debug)]
pub enum TransportError {
    Io(std::io::Error),
    Closed,
    Unexpected(String),
}

/// The host part of the connection URI: the bare host on the scheme's default port (443
/// for wss, 80 for ws), else `host:port`.
pub open spec fn authority_spec(host: Seq<char>, port: u16, secure: bool) -> Seq<char> {
    if port == (if secure {
        443u16
    } else {
        80u16
    }) {
        host
    } else {
        host + ":"@ + digits(port as nat)
    }
}

/// The host part of the connection URI (also the `Host` header).
pub fn ws_authority(host: &str, port: u16, secure: bool) -> (r: String)
    ensures
        r@ == authority_spec(host@, port, secure),
{
    let default_port: u16 = if secure {
        443
    } else {
        80
    };
    let mut s = String::from_str(host);
    if port != default_port {
        s.append(":");
        push_digits(&mut s, port as u128);
        proof {
            reveal_strlit(":");
        }
    }
    s
}

/// The URI the client connects to: `wss://` or `ws://`, the authority, then the endpoint
/// path.
pub fn connect_uri(authority: &str, secure: bool) -> (r: String)
    ensures
        r@ == (if secure {
            "wss://"@
        } else {
            "ws://"@
        }) + authority@ + CONNECT_PATH@,
{
    let mut s = if secure {
        String::from_str("wss://")
    } else {
        String::from_str("ws://")
    };
    s.append(authority);
    s.append(CONNECT_PATH);
    s
}

} // verus!
