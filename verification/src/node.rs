//! The node proxy engine's decisions: which way an inbound stream is
//! dispatched, how an old-style proxy preamble is rewritten, which upstream
//! a forwarded identifier maps to, and the loop check against the gateway's
//! own address.
//!
//! The engine's I/O — reading the identifier prefix, connecting upstream,
//! copying bytes — happens outside the library; every choice it has to make
//! is taken here on plain values.

use vstd::prelude::*;

use crate::addrtext::dec_digits;
use crate::codec::NetAddr;
use crate::header::{lookup, remove_key, upsert, Header};
use crate::mac::Mac;
use crate::p2p::method_p2p;
use crate::text::bytes_eq;
use crate::urlwrap::UrlParts;
use crate::RwebError;

verus! {

/// The `CONNECT` method token.
pub open spec fn method_connect() -> Seq<u8> {
    seq![67u8, 79u8, 78u8, 78u8, 69u8, 67u8, 84u8]
}

/// The `Proxy-Connection` header key.
pub open spec fn key_proxy_connection() -> Seq<u8> {
    seq![
        80u8, 114u8, 111u8, 120u8, 121u8, 45u8, 67u8, 111u8, 110u8, 110u8, 101u8, 99u8, 116u8,
        105u8, 111u8, 110u8,
    ]
}

/// The `Connection` header key.
pub open spec fn key_connection() -> Seq<u8> {
    seq![67u8, 111u8, 110u8, 110u8, 101u8, 99u8, 116u8, 105u8, 111u8, 110u8]
}

/// The `close` header value.
pub open spec fn val_close() -> Seq<u8> {
    seq![99u8, 108u8, 111u8, 115u8, 101u8]
}

/// The `http` scheme text.
pub open spec fn scheme_http() -> Seq<u8> {
    seq![104u8, 116u8, 116u8, 112u8]
}

/// The `CONNECT` method token as bytes.
pub fn method_connect_bytes() -> (r: Vec<u8>)
    ensures
        r@ == method_connect(),
{
    let r: Vec<u8> = vec![67u8, 79u8, 78u8, 78u8, 69u8, 67u8, 84u8];
    proof {
        assert(r@ =~= method_connect());
    }
    r
}

/// The `Proxy-Connection` key as bytes.
pub fn key_proxy_connection_bytes() -> (r: Vec<u8>)
    ensures
        r@ == key_proxy_connection(),
{
    let r: Vec<u8> = vec![
        80u8, 114u8, 111u8, 120u8, 121u8, 45u8, 67u8, 111u8, 110u8, 110u8, 101u8, 99u8, 116u8,
        105u8, 111u8, 110u8,
    ];
    proof {
        assert(r@ =~= key_proxy_connection());
    }
    r
}

/// The `Connection` key as bytes.
pub fn key_connection_bytes() -> (r: Vec<u8>)
    ensures
        r@ == key_connection(),
{
    let r: Vec<u8> = vec![67u8, 111u8, 110u8, 110u8, 101u8, 99u8, 116u8, 105u8, 111u8, 110u8];
    proof {
        assert(r@ =~= key_connection());
    }
    r
}

/// The `close` value as bytes.
pub fn val_close_bytes() -> (r: Vec<u8>)
    ensures
        r@ == val_close(),
{
    let r: Vec<u8> = vec![99u8, 108u8, 111u8, 115u8, 101u8];
    proof {
        assert(r@ =~= val_close());
    }
    r
}

/// The upstream protocol of a forwarding entry.
#[derive(Debug, Clone, Copy, PartialEq, Eq, Structural)]
pub enum Scheme {
    Http,
    Https,
    Rtsp,
}

/// The default port of each upstream protocol.
pub open spec fn spec_default_port(s: Scheme) -> u16 {
    match s {
        Scheme::Http => 80u16,
        Scheme::Https => 443u16,
        Scheme::Rtsp => 554u16,
    }
}

/// The default port of each upstream protocol.
pub fn default_port(s: &Scheme) -> (r: u16)
    ensures
        r == spec_default_port(*s),
{
    match s {
        Scheme::Http => 80,
        Scheme::Https => 443,
        Scheme::Rtsp => 554,
    }
}

/// One forwarding entry: requests for the identifier go to this upstream.
#[derive(Debug, Clone)]
pub struct ProxyList {
    pub mac: Mac,
    pub scheme: Scheme,
    pub host: Vec<u8>,
    pub port: Option<u16>,
}

/// One rendezvous listener entry: connections accepted on the port are
/// tunneled to the named peer.
#[derive(Debug, Clone)]
pub struct P2pCell {
    pub mac: Mac,
    pub port: u16,
}

/// The views of forwarding entries.
pub open spec fn proxy_views(es: Seq<ProxyList>) -> Seq<(Seq<u8>, Scheme, Seq<u8>, Option<u16>)> {
    es.map_values(|e: ProxyList| (e.mac@, e.scheme, e.host@, e.port))
}

/// The first forwarding entry of an identifier, if any.
pub open spec fn proxy_lookup(es: Seq<(Seq<u8>, Scheme, Seq<u8>, Option<u16>)>, m: Seq<u8>) -> Option<
    (Seq<u8>, Scheme, Seq<u8>, Option<u16>),
>
    decreases es.len(),
{
    if es.len() == 0 {
        None
    } else if es[0].0 == m {
        Some(es[0])
    } else {
        proxy_lookup(es.drop_first(), m)
    }
}

/// What the engine does with an inbound stream, by its preamble.
#[derive(Debug, Clone, Copy, PartialEq, Eq, Structural)]
pub enum NodeAction {
    /// Tunnel: drop the preamble, connect to the uri's address, acknowledge.
    Connect,
    /// Rendezvous signaling.
    P2p,
    /// Old-style proxy request: rewrite the preamble, then forward.
    OldProxy,
    /// Plain forward to the identifier's configured upstream.
    Forward,
}

/// Dispatches an inbound preamble: tunneling by method, rendezvous by
/// method, old-style proxying by the presence of its marker header,
/// everything else to the configured upstream.
pub fn classify_request(h: &Header) -> (r: NodeAction)
    ensures
        (r == NodeAction::Connect) <==> h.method@ == method_connect(),
        (r == NodeAction::P2p) <==> (h.method@ != method_connect() && h.method@ == method_p2p()),
        (r == NodeAction::OldProxy) <==> (h.method@ != method_connect() && h.method@
            != method_p2p() && lookup(h.entries(), key_proxy_connection()) is Some),
        (r == NodeAction::Forward) <==> (h.method@ != method_connect() && h.method@
            != method_p2p() && lookup(h.entries(), key_proxy_connection()) is None),
{
    let connect = method_connect_bytes();
    if bytes_eq(h.method.as_slice(), connect.as_slice()) {
        return NodeAction::Connect;
    }
    let p2p = crate::p2p::method_p2p_bytes();
    if bytes_eq(h.method.as_slice(), p2p.as_slice()) {
        return NodeAction::P2p;
    }
    let pc = key_proxy_connection_bytes();
    match h.get(pc.as_slice()) {
        Some(_) => NodeAction::OldProxy,
        None => NodeAction::Forward,
    }
}

/// The host-and-port text an old-style absolute uri names:
/// `host` or `host:port` when a port is explicit.
pub open spec fn spec_hostport(host: Seq<u8>, port: Option<u16>) -> Seq<u8> {
    match port {
        None => host,
        Some(p) => host.add(seq![58u8]).add(dec_digits(p as int)),
    }
}

/// The uri after the old-style rewrite: the `scheme://host[:port]` prefix
/// is stripped, and an emptied uri becomes the root path.
pub open spec fn spec_rewritten_uri(u: Seq<u8>, scheme: Seq<u8>, host: Seq<u8>, port: Option<
    u16,
>) -> Seq<u8> {
    let pfx = scheme.add(seq![58u8, 47u8, 47u8]).add(spec_hostport(host, port));
    let stripped = if pfx.len() <= u.len() && u.take(pfx.len() as int) == pfx {
        u.skip(pfx.len() as int)
    } else {
        u
    };
    if stripped.len() == 0 {
        seq![47u8]
    } else {
        stripped
    }
}

/// The address text an old-style proxy request is connected to, and its
/// port: the explicit port, or 80 for plain upstreams and 443 otherwise.
pub fn old_proxy_target(parts: &UrlParts) -> (r: (Vec<u8>, u16))
    ensures
        r.0@ == parts.host@,
        r.1 == (match parts.port {
            Some(p) => p,
            None => if parts.scheme@ == scheme_http() {
                80u16
            } else {
                443u16
            },
        }),
{
    let host = vstd::slice::slice_to_vec(parts.host.as_slice());
    let port: u16 = match parts.port {
        Some(p) => p,
        None => {
            let http: Vec<u8> = vec![104u8, 116u8, 116u8, 112u8];
            proof {
                assert(http@ =~= scheme_http());
            }
            if bytes_eq(parts.scheme.as_slice(), http.as_slice()) {
                80
            } else {
                443
            }
        },
    };
    (host, port)
}

/// Rewrites an old-style proxy preamble in place: the marker header goes,
/// the first-line echo header goes, `Connection: close` is set, and the
/// uri keeps only what follows its `scheme://host[:port]` prefix.
pub fn rewrite_old_proxy(h: &mut Header, parts: &UrlParts)
    ensures
        final(h).method@ == old(h).method@,
        final(h).version@ == old(h).version@,
        final(h).uri@ == spec_rewritten_uri(
            old(h).uri@,
            parts.scheme@,
            parts.host@,
            parts.port,
        ),
        final(h).entries() == upsert(
            remove_key(
                remove_key(old(h).entries(), key_proxy_connection()),
                old(h).method@,
            ),
            key_connection(),
            val_close(),
        ),
        old(h).wf() ==> final(h).wf(),
{
    let pc = key_proxy_connection_bytes();
    h.remove(pc.as_slice());
    let mkey = vstd::slice::slice_to_vec(h.method.as_slice());
    h.remove(mkey.as_slice());
    h.insert(key_connection_bytes(), val_close_bytes());
    let mut pfx: Vec<u8> = Vec::new();
    pfx.extend_from_slice(parts.scheme.as_slice());
    pfx.push(58);
    pfx.push(47);
    pfx.push(47);
    pfx.extend_from_slice(parts.host.as_slice());
    match parts.port {
        None => {},
        Some(p) => {
            pfx.push(58);
            crate::addrtext::push_dec(&mut pfx, p);
        },
    }
    proof {
        assert(pfx@ =~= parts.scheme@.add(seq![58u8, 47u8, 47u8]).add(
            spec_hostport(parts.host@, parts.port),
        ));
    }
    let strip = h.uri.len() >= pfx.len() && bytes_eq(
        vstd::slice::slice_subrange(h.uri.as_slice(), 0, pfx.len()),
        pfx.as_slice(),
    );
    if strip {
        let rest = vstd::slice::slice_to_vec(
            vstd::slice::slice_subrange(h.uri.as_slice(), pfx.len(), h.uri.len()),
        );
        h.uri = rest;
    }
    if h.uri.len() == 0 {
        let root: Vec<u8> = vec![47u8];
        proof {
            assert(root@ =~= seq![47u8]);
        }
        h.uri = root;
    }
}

/// The node's forwarding configuration: its entries, and the gateway's
/// resolved address for the loop check.
#[derive(Debug, Clone)]
pub struct ProxyStringList {
    pub proxy_list: Vec<ProxyList>,
    pub server_addr: NetAddr,
}

/// The upstream connection a forwarded request needs: its host text, the
/// effective port, and whether the byte stream is wrapped in TLS.
#[derive(Debug, Clone)]
pub struct UpstreamPlan {
    pub host: Vec<u8>,
    pub port: u16,
    pub tls: bool,
}

impl ProxyStringList {
    /// Packs the forwarding entries with the gateway's address.
    pub fn new(proxy_list: Vec<ProxyList>, server_addr: NetAddr) -> (r: ProxyStringList)
        ensures
            proxy_views(r.proxy_list@) == proxy_views(proxy_list@),
            r.server_addr@ == server_addr@,
    {
        ProxyStringList { proxy_list, server_addr }
    }

    /// The identifiers this node registers: one per forwarding entry, in
    /// order.
    pub fn mac_list(&self) -> (r: Vec<Mac>)
        ensures
            r@.len() == self.proxy_list@.len(),
            forall|k: int|
                0 <= k < r@.len() ==> (#[trigger] r@[k])@ == proxy_views(self.proxy_list@)[k].0,
    {
        let mut out: Vec<Mac> = Vec::new();
        let mut i: usize = 0;
        while i < self.proxy_list.len()
            invariant
                i <= self.proxy_list@.len(),
                out@.len() == i,
                forall|k: int|
                    0 <= k < i ==> (#[trigger] out@[k])@ == proxy_views(self.proxy_list@)[k].0,
            decreases self.proxy_list@.len() - i,
        {
            out.push(self.proxy_list[i].mac);
            i = i + 1;
        }
        out
    }

    /// The upstream the identifier's first forwarding entry names: its
    /// host, its explicit port or the scheme's default, TLS for the secure
    /// scheme.  Fails with code 5024 exactly when no entry matches.
    pub fn forward_plan(&self, mac: &Mac) -> (r: Result<UpstreamPlan, RwebError>)
        ensures
            r is Ok <==> proxy_lookup(proxy_views(self.proxy_list@), mac@) is Some,
            r matches Ok(plan) ==> (proxy_lookup(proxy_views(self.proxy_list@), mac@)
                matches Some(e) && plan.host@ == e.2 && plan.port == (match e.3 {
                Some(p) => p,
                None => spec_default_port(e.1),
            }) && plan.tls == (e.1 == Scheme::Https)),
            r matches Err(er) ==> er.code == 5024,
    {
        let mut i: usize = 0;
        proof {
            assert(proxy_views(self.proxy_list@).skip(0) =~= proxy_views(self.proxy_list@));
        }
        while i < self.proxy_list.len()
            invariant
                i <= self.proxy_list@.len(),
                proxy_lookup(proxy_views(self.proxy_list@), mac@) == proxy_lookup(
                    proxy_views(self.proxy_list@).skip(i as int),
                    mac@,
                ),
            decreases self.proxy_list@.len() - i,
        {
            proof {
                assert(proxy_views(self.proxy_list@).skip(i as int)[0] == proxy_views(
                    self.proxy_list@,
                )[i as int]);
                assert(proxy_views(self.proxy_list@).skip(i as int).drop_first()
                    =~= proxy_views(self.proxy_list@).skip(i + 1));
            }
            if self.proxy_list[i].mac.same(mac) {
                let e = &self.proxy_list[i];
                let port = match e.port {
                    Some(p) => p,
                    None => default_port(&e.scheme),
                };
                let tls = match e.scheme {
                    Scheme::Https => true,
                    _ => false,
                };
                return Ok(
                    UpstreamPlan { host: vstd::slice::slice_to_vec(e.host.as_slice()), port, tls },
                );
            }
            i = i + 1;
        }
        Err(RwebError::new(5024, "not found proxy addr"))
    }

    /// The loop check for a tunneled target handed in directly: connecting
    /// back to the gateway is refused with code 5023.
    pub fn check_direct(&self, addr: &NetAddr) -> (r: Result<(), RwebError>)
        ensures
            r is Ok <==> addr@ != self.server_addr@,
            r matches Err(e) ==> e.code == 5023,
    {
        if addr.same(&self.server_addr) {
            Err(RwebError::new(5023, "loop detected"))
        } else {
            Ok(())
        }
    }

    /// The loop check for a resolved forwarding upstream: an upstream that
    /// resolves to the gateway itself is refused with code 5026.
    pub fn check_loop(&self, resolved: &NetAddr) -> (r: Result<(), RwebError>)
        ensures
            r is Ok <==> resolved@ != self.server_addr@,
            r matches Err(e) ==> e.code == 5026,
    {
        if resolved.same(&self.server_addr) {
            Err(RwebError::new(5026, "loop detected"))
        } else {
            Ok(())
        }
    }
}

/// The first rendezvous listener entry bound to a port, if any.  Fails
/// with code 54 exactly when no entry uses the port.
pub fn find_p2p_cell(list: &Vec<P2pCell>, port: u16) -> (r: Result<P2pCell, RwebError>)
    ensures
        r is Ok <==> exists|k: int| 0 <= k < list@.len() && (#[trigger] list@[k]).port == port,
        r matches Ok(c) ==> exists|k: int|
            0 <= k < list@.len() && (#[trigger] list@[k]).port == port && c.mac@ == list@[k].mac@
                && c.port == port,
        r matches Err(e) ==> e.code == 54,
    {
    let mut i: usize = 0;
    while i < list.len()
        invariant
            i <= list@.len(),
            forall|k: int| 0 <= k < i ==> (#[trigger] list@[k]).port != port,
        decreases list@.len() - i,
    {
        if list[i].port == port {
            let c = P2pCell { mac: list[i].mac, port: list[i].port };
            return Ok(c);
        }
        i = i + 1;
    }
    Err(RwebError::new(54, "port not found"))
}

} // verus!
