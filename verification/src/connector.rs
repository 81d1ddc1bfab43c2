//! Connection setup checks: the connection request model, the target
//! address derivation with its missing-host/missing-port errors, and the
//! TLS configuration decision. The actual TCP, TLS and websocket
//! handshakes are I/O and live with the caller, which must perform them
//! only after these checks pass.

use vstd::prelude::*;

use crate::Error;
use crate::LCResult;
use crate::json::uint_chars;
use crate::json::push_uint;
use crate::message::str_to_chars;
use crate::message::chars_to_string;

verus! {

/// An outbound connection request for the secure websocket endpoint: the
/// target host and port, and the Authorization header value that must
/// accompany the handshake. The scheme is always the secure one.
pub struct ConnectRequest {
    pub host: Option<String>,
    pub port: Option<u16>,
    pub authorization: String,
}

/// The `host:port` text the transport dials.
pub open spec fn spec_target(host: Seq<char>, port: u16) -> Seq<char> {
    host + seq![':'] + uint_chars(port as nat)
}

/// TLS configuration of the transport connector. Exactly one option is
/// recognized: `insecure`, which skips certificate-chain and hostname
/// validation (the endpoint presents a self-signed, per-launch
/// certificate).
#[derive(Debug, Clone, Copy, PartialEq, Eq, Structural)]
pub struct Connector {
    pub insecure: bool,
}

impl Connector {
    /// A builder with the secure default.
    pub fn builder() -> (b: ConnectorBuilder)
        ensures
            !b.insecure,
    {
        ConnectorBuilder { insecure: false }
    }

    /// Derives the `host:port` target the transport must dial. A request
    /// without a host is refused with `MissingHost`, one without a port
    /// with `MissingPort`; no socket may be opened in either case.
    pub fn connect_target(&self, req: &ConnectRequest) -> (r: LCResult<String>)
        ensures
            req.host is None ==> (r matches Err(e) && e == Error::MissingHost),
            req.host is Some && req.port is None ==> (r matches Err(e) && e
                == Error::MissingPort),
            req.host is Some && req.port is Some ==> (r matches Ok(t) && t@ == spec_target(
                req.host.unwrap()@,
                req.port.unwrap(),
            )),
    {
        let host = match &req.host {
            Option::Some(h) => h,
            Option::None => {
                return Err(Error::MissingHost);
            },
        };
        let port = match &req.port {
            Option::Some(p) => *p,
            Option::None => {
                return Err(Error::MissingPort);
            },
        };
        let mut v = str_to_chars(host.as_str());
        v.push(':');
        proof {
            assert(v@ =~= host@ + seq![':']);
        }
        push_uint(&mut v, port as usize);
        Ok(chars_to_string(&v))
    }
}

/// Builder for the TLS configuration.
#[derive(Debug, Clone, Copy, PartialEq, Eq, Structural)]
pub struct ConnectorBuilder {
    pub insecure: bool,
}

impl ConnectorBuilder {
    /// Chooses whether certificate validation is skipped.
    pub fn insecure(self, value: bool) -> (b: Self)
        ensures
            b.insecure == value,
    {
        ConnectorBuilder { insecure: value }
    }

    /// Finishes the configuration. The validated mode is not wired to a
    /// trust store, so leaving `insecure` unset is a configuration error
    /// reported as a value, never a panic.
    pub fn build(self) -> (r: LCResult<Connector>)
        ensures
            self.insecure ==> (r matches Ok(c) && c.insecure),
            !self.insecure ==> (r matches Err(e) && e is Tls),
    {
        if self.insecure {
            Ok(Connector { insecure: true })
        } else {
            let msg = chars_to_string(
                &vec!['n', 'o', ' ', 't', 'r', 'u', 's', 't', ' ', 's', 't', 'o', 'r', 'e'],
            );
            Err(Error::Tls(msg))
        }
    }
}

} // verus!
