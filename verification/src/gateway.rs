//! The gateway's routing decisions: which identifier a public request is
//! steered to, taken from the TLS server name or the `Host` header's
//! leftmost label, with the streaming-protocol path routed by its uri's
//! host and tunneling refused on the plain listener.
//!
//! The listeners, TLS handshakes and stream copies live outside the
//! library; they hand in the parsed preamble and the server name and take
//! back the decision.

use vstd::prelude::*;

use crate::header::{lookup, Header};
use crate::mac::{is_valid_mac_hex, mac_of_hex, strip_separators, Mac};
use crate::node::method_connect;
use crate::text::{find_byte, find_byte_spec};
use crate::urlwrap::{parse_url, url_host_of, url_parses};
use crate::RwebError;

verus! {

/// The `OPTIONS` method token.
pub open spec fn method_options() -> Seq<u8> {
    seq![79u8, 80u8, 84u8, 73u8, 79u8, 78u8, 83u8]
}

/// The streaming-protocol version token, `RTSP/1.0`.
pub open spec fn version_rtsp10() -> Seq<u8> {
    seq![82u8, 84u8, 83u8, 80u8, 47u8, 49u8, 46u8, 48u8]
}

/// The `Host` header key.
pub open spec fn key_host() -> Seq<u8> {
    seq![72u8, 111u8, 115u8, 116u8]
}

/// The `OPTIONS` method token as bytes.
pub fn method_options_bytes() -> (r: Vec<u8>)
    ensures
        r@ == method_options(),
{
    let r: Vec<u8> = vec![79u8, 80u8, 84u8, 73u8, 79u8, 78u8, 83u8];
    proof {
        assert(r@ =~= method_options());
    }
    r
}

/// The `RTSP/1.0` version token as bytes.
pub fn version_rtsp10_bytes() -> (r: Vec<u8>)
    ensures
        r@ == version_rtsp10(),
{
    let r: Vec<u8> = vec![82u8, 84u8, 83u8, 80u8, 47u8, 49u8, 46u8, 48u8];
    proof {
        assert(r@ =~= version_rtsp10());
    }
    r
}

/// The `Host` key as bytes.
pub fn key_host_bytes() -> (r: Vec<u8>)
    ensures
        r@ == key_host(),
{
    let r: Vec<u8> = vec![72u8, 111u8, 115u8, 116u8];
    proof {
        assert(r@ =~= key_host());
    }
    r
}

/// A record layer byte that announces a TLS handshake on a fresh stream.
pub fn is_tls_hello(first: u8) -> (r: bool)
    ensures
        r == (first == 22),
{
    first == 22
}

/// The leftmost dot-separated label of a host text.
pub open spec fn host_label(hst: Seq<u8>) -> Seq<u8> {
    match find_byte_spec(hst, 46) {
        None => hst,
        Some(j) => hst.take(j),
    }
}

/// The identifier text a request is steered by: the TLS server name when
/// one was sent, else the `Host` header.
pub open spec fn steer_host(h: &Header, sni: Option<Seq<u8>>) -> Option<Seq<u8>> {
    match sni {
        Some(s) => Some(s),
        None => lookup(h.entries(), key_host()),
    }
}

/// A request that asks for the streaming-protocol path.
pub open spec fn is_rtsp_options(h: &Header) -> bool {
    h.method@ == method_options() && h.version@ == version_rtsp10()
}

/// Where the gateway sends a public request.
#[derive(Debug)]
pub enum RouteDecision {
    /// Steer by the uri host's leftmost label (streaming protocol).
    Rtsp(Mac),
    /// Tunneling over the plain listener: refuse with the fixed reply.
    RejectConnect,
    /// Steer by the server name's or `Host` header's leftmost label.
    Steer(Mac),
}

/// Routes one public request.  The streaming-protocol path takes the
/// identifier from the uri's host (code 2405 when the uri has no host);
/// tunneling over the plain listener is refused; everything else takes it
/// from the server name or the `Host` header (code 2406 when neither is
/// there).  Identifier parse failures pass through their own codes.
pub fn route_request(h: &Header, sni: Option<&Vec<u8>>, is_tls: bool) -> (r: Result<
    RouteDecision,
    RwebError,
>)
    ensures
        is_rtsp_options(h) ==> (match r {
            Ok(RouteDecision::Rtsp(m)) => url_parses(h.uri@) && is_valid_mac_hex(
                strip_separators(host_label(url_host_of(h.uri@))),
            ) && m@ == mac_of_hex(strip_separators(host_label(url_host_of(h.uri@)))),
            Ok(_) => false,
            Err(e) => e.code == 2405 || e.code == 50001 || e.code == 50002,
        }),
        is_rtsp_options(h) && !url_parses(h.uri@) ==> (r matches Err(e) && e.code == 2405),
        (!is_rtsp_options(h) && h.method@ == method_connect() && !is_tls) ==> r matches Ok(
            RouteDecision::RejectConnect,
        ),
        (!is_rtsp_options(h) && !(h.method@ == method_connect() && !is_tls)) ==> (match r {
            Ok(RouteDecision::Steer(m)) => (steer_host(h, match sni {
                Some(s) => Some(s@),
                None => None,
            }) matches Some(hh) && is_valid_mac_hex(strip_separators(host_label(hh))) && m@
                == mac_of_hex(strip_separators(host_label(hh)))),
            Ok(_) => false,
            Err(e) => e.code == 2406 || e.code == 50001 || e.code == 50002,
        }),
        (!is_rtsp_options(h) && !(h.method@ == method_connect() && !is_tls) && steer_host(
            h,
            match sni {
                Some(s) => Some(s@),
                None => None,
            },
        ) is None) ==> (r matches Err(e) && e.code == 2406),
        (is_rtsp_options(h) && url_parses(h.uri@) && is_valid_mac_hex(
            strip_separators(host_label(url_host_of(h.uri@))),
        )) ==> (r matches Ok(RouteDecision::Rtsp(m)) && m@ == mac_of_hex(
            strip_separators(host_label(url_host_of(h.uri@))),
        )),
        (is_rtsp_options(h) && url_parses(h.uri@) && !is_valid_mac_hex(
            strip_separators(host_label(url_host_of(h.uri@))),
        )) ==> (r matches Err(e) && e.code == (if strip_separators(
            host_label(url_host_of(h.uri@)),
        ).len() != 12 {
            50001int
        } else {
            50002int
        })),
        (!is_rtsp_options(h) && !(h.method@ == method_connect() && !is_tls)) ==> (match steer_host(
            h,
            match sni {
                Some(s) => Some(s@),
                None => None,
            },
        ) {
            Some(hh) => if is_valid_mac_hex(strip_separators(host_label(hh))) {
                r matches Ok(RouteDecision::Steer(m)) && m@ == mac_of_hex(
                    strip_separators(host_label(hh)),
                )
            } else {
                r matches Err(e) && e.code == (if strip_separators(host_label(hh)).len() != 12 {
                    50001int
                } else {
                    50002int
                })
            },
            None => true,
        }),
{
    let options = method_options_bytes();
    let rtsp10 = version_rtsp10_bytes();
    if crate::text::bytes_eq(h.method.as_slice(), options.as_slice()) && crate::text::bytes_eq(
        h.version.as_slice(),
        rtsp10.as_slice(),
    ) {
        let parts = match parse_url(h.uri.as_slice()) {
            None => {
                return Err(RwebError::new(2405, "host error"));
            },
            Some(p) => p,
        };
        let label = host_label_bytes(parts.host.as_slice());
        let m = match Mac::from_text(label.as_slice()) {
            Err(e) => {
                return Err(e);
            },
            Ok(m) => m,
        };
        return Ok(RouteDecision::Rtsp(m));
    }
    let connect = crate::node::method_connect_bytes();
    if crate::text::bytes_eq(h.method.as_slice(), connect.as_slice()) && !is_tls {
        return Ok(RouteDecision::RejectConnect);
    }
    let host_key = key_host_bytes();
    let m = match sni {
        Some(s) => {
            let label = host_label_bytes(s.as_slice());
            match Mac::from_text(label.as_slice()) {
                Err(e) => {
                    return Err(e);
                },
                Ok(m) => m,
            }
        },
        None => match h.get(host_key.as_slice()) {
            None => {
                return Err(RwebError::new(2406, "not found Host header"));
            },
            Some(hh) => {
                let label = host_label_bytes(hh.as_slice());
                match Mac::from_text(label.as_slice()) {
                    Err(e) => {
                        return Err(e);
                    },
                    Ok(m) => m,
                }
            },
        },
    };
    Ok(RouteDecision::Steer(m))
}

/// The leftmost dot-separated label of a host text.
pub fn host_label_bytes(hst: &[u8]) -> (r: Vec<u8>)
    ensures
        r@ == host_label(hst@),
{
    match find_byte(hst, 46) {
        None => vstd::slice::slice_to_vec(hst),
        Some(j) => vstd::slice::slice_to_vec(vstd::slice::slice_subrange(hst, 0, j)),
    }
}

} // verus!
