//! The bridge decisions: what each inbound x outbound protocol pair
//! writes before the byte relay starts.  The surrounding I/O performs
//! these decisions; nothing here touches a socket.

use vstd::prelude::*;
use crate::http_head::{connect_head, is_connect, spec_connect_head, connect_prefix};
use crate::text::starts_with_seq;

verus! {

use vstd::string::StringSliceAdditionalSpecFns;

/// What the HTTP-to-HTTP cell sends upstream before relaying: a CONNECT
/// preamble is replaced by a freshly built CONNECT head; anything else
/// goes through verbatim.
pub open spec fn spec_http_upstream(preamble: Seq<u8>, host: Seq<u8>, port: u16) -> Seq<u8> {
    if starts_with_seq(preamble, connect_prefix()) {
        spec_connect_head(host, port)
    } else {
        preamble
    }
}

/// Builds the bytes the HTTP-to-HTTP cell sends upstream.
pub fn http_upstream_payload(preamble: &Vec<u8>, host: &str, port: u16) -> (r: Vec<u8>)
    ensures
        r@ == spec_http_upstream(preamble@, host.spec_bytes(), port),
{
    if is_connect(preamble.as_slice()) {
        connect_head(host, port)
    } else {
        crate::http_head::copy_bytes(preamble)
    }
}

/// Law: the preamble captured by the HTTP inbound is either transmitted
/// verbatim to the outbound or replaced by a single freshly constructed
/// CONNECT head; it is never partially modified.
pub proof fn lemma_preamble_verbatim_or_rewritten(preamble: Seq<u8>, host: Seq<u8>, port: u16)
    ensures
        spec_http_upstream(preamble, host, port) == preamble || spec_http_upstream(
            preamble,
            host,
            port,
        ) == spec_connect_head(host, port),
        starts_with_seq(preamble, connect_prefix()) ==> spec_http_upstream(preamble, host, port)
            == spec_connect_head(host, port),
        !starts_with_seq(preamble, connect_prefix()) ==> spec_http_upstream(preamble, host, port)
            == preamble,
{
}

/// What the client hears once the SOCKS5 upstream granted the tunnel in
/// the HTTP-to-SOCKS5 cell.
#[derive(Debug, Clone, Copy, PartialEq, Eq, Structural)]
pub enum ClientAction {
    /// The preamble was a CONNECT: answer `200 Connection Established`.
    ReplyEstablished,
    /// A plain request: forward the captured preamble upstream.
    ForwardPreamble,
}

/// Decides what follows a granted SOCKS5 tunnel for an HTTP client.
pub fn after_tunnel_established(preamble: &Vec<u8>) -> (r: ClientAction)
    ensures
        r == ClientAction::ReplyEstablished <==> starts_with_seq(preamble@, connect_prefix()),
        r == ClientAction::ForwardPreamble <==> !starts_with_seq(preamble@, connect_prefix()),
{
    if is_connect(preamble.as_slice()) {
        ClientAction::ReplyEstablished
    } else {
        ClientAction::ForwardPreamble
    }
}

} // verus!
