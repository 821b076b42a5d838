//! Rendezvous signaling and NAT traversal decisions: the `P2P` pseudo-method
//! preamble that carries identifiers and observed addresses, the NAT
//! classification the gateway annotates, and the port-prediction sweep an
//! initiator dials against a symmetric NAT.

use vstd::prelude::*;

use crate::addrtext::{format_addr, is_canonical_addr_text, parse_addr, spec_format_addr};
use crate::codec::{wf_addr, NetAddr};
use crate::header::{lookup, upsert, Header};
use crate::mac::{is_valid_mac_hex, mac_of_hex, strip_separators, text_of_mac, Mac};
use crate::text::bytes_eq;
use crate::RwebError;

verus! {

/// Candidate ports dialed against a symmetric NAT.
pub const PORT_SWEEP: u16 = 1000;

/// The rendezvous pseudo-method, `P2P`.
pub open spec fn method_p2p() -> Seq<u8> {
    seq![80u8, 50u8, 80u8]
}

/// The rendezvous uri, `/p2p`.
pub open spec fn uri_p2p() -> Seq<u8> {
    seq![47u8, 112u8, 50u8, 112u8]
}

/// The probe uri, `/p2ptest`.
pub open spec fn uri_p2ptest() -> Seq<u8> {
    seq![47u8, 112u8, 50u8, 112u8, 116u8, 101u8, 115u8, 116u8]
}

/// The version token, `HTTP/1.1`.
pub open spec fn version_http11() -> Seq<u8> {
    seq![72u8, 84u8, 84u8, 80u8, 47u8, 49u8, 46u8, 49u8]
}

/// The `mac` header key.
pub open spec fn key_mac() -> Seq<u8> {
    seq![109u8, 97u8, 99u8]
}

/// The `addr` header key.
pub open spec fn key_addr() -> Seq<u8> {
    seq![97u8, 100u8, 100u8, 114u8]
}

/// The `self_addr` header key.
pub open spec fn key_self_addr() -> Seq<u8> {
    seq![115u8, 101u8, 108u8, 102u8, 95u8, 97u8, 100u8, 100u8, 114u8]
}

/// The `Nat-Type` header key.
pub open spec fn key_nat_type() -> Seq<u8> {
    seq![78u8, 97u8, 116u8, 45u8, 84u8, 121u8, 112u8, 101u8]
}

/// The `FullCone` classification value.
pub open spec fn nat_fullcone() -> Seq<u8> {
    seq![70u8, 117u8, 108u8, 108u8, 67u8, 111u8, 110u8, 101u8]
}

/// The `Symmetric` classification value.
pub open spec fn nat_symmetric() -> Seq<u8> {
    seq![83u8, 121u8, 109u8, 109u8, 101u8, 116u8, 114u8, 105u8, 99u8]
}

/// The `P2P` method token as bytes.
pub fn method_p2p_bytes() -> (r: Vec<u8>)
    ensures
        r@ == method_p2p(),
{
    let r: Vec<u8> = vec![80u8, 50u8, 80u8];
    proof {
        assert(r@ =~= method_p2p());
    }
    r
}

/// The `mac` key as bytes.
pub fn key_mac_bytes() -> (r: Vec<u8>)
    ensures
        r@ == key_mac(),
{
    let r: Vec<u8> = vec![109u8, 97u8, 99u8];
    proof {
        assert(r@ =~= key_mac());
    }
    r
}

/// The `addr` key as bytes.
pub fn key_addr_bytes() -> (r: Vec<u8>)
    ensures
        r@ == key_addr(),
{
    let r: Vec<u8> = vec![97u8, 100u8, 100u8, 114u8];
    proof {
        assert(r@ =~= key_addr());
    }
    r
}

/// The `self_addr` key as bytes.
pub fn key_self_addr_bytes() -> (r: Vec<u8>)
    ensures
        r@ == key_self_addr(),
{
    let r: Vec<u8> = vec![115u8, 101u8, 108u8, 102u8, 95u8, 97u8, 100u8, 100u8, 114u8];
    proof {
        assert(r@ =~= key_self_addr());
    }
    r
}

/// The `Nat-Type` key as bytes.
pub fn key_nat_type_bytes() -> (r: Vec<u8>)
    ensures
        r@ == key_nat_type(),
{
    let r: Vec<u8> = vec![78u8, 97u8, 116u8, 45u8, 84u8, 121u8, 112u8, 101u8];
    proof {
        assert(r@ =~= key_nat_type());
    }
    r
}

/// The `FullCone` value as bytes.
pub fn nat_fullcone_bytes() -> (r: Vec<u8>)
    ensures
        r@ == nat_fullcone(),
{
    let r: Vec<u8> = vec![70u8, 117u8, 108u8, 108u8, 67u8, 111u8, 110u8, 101u8];
    proof {
        assert(r@ =~= nat_fullcone());
    }
    r
}

/// The `Symmetric` value as bytes.
pub fn nat_symmetric_bytes() -> (r: Vec<u8>)
    ensures
        r@ == nat_symmetric(),
{
    let r: Vec<u8> = vec![83u8, 121u8, 109u8, 109u8, 101u8, 116u8, 114u8, 105u8, 99u8];
    proof {
        assert(r@ =~= nat_symmetric());
    }
    r
}

/// What a peer's NAT was classified as.
#[derive(Debug, Clone, Copy, PartialEq, Eq, Structural)]
pub enum NatType {
    FullCone,
    Symmetric,
}

/// Classifies a peer: symmetric exactly when the address it reported for
/// itself differs from the address the gateway observed; unknown when it
/// reported none.
pub fn nat_type_for(observed: &NetAddr, self_reported: Option<&NetAddr>) -> (r: Option<NatType>)
    ensures
        r is None <==> self_reported is None,
        r == Some(NatType::Symmetric) <==> (self_reported matches Some(x) && x@ != observed@),
        r == Some(NatType::FullCone) <==> (self_reported matches Some(x) && x@ == observed@),
{
    match self_reported {
        None => None,
        Some(x) => if x.same(observed) {
            Some(NatType::FullCone)
        } else {
            Some(NatType::Symmetric)
        },
    }
}

/// How many candidate ports to dial: one thousand against a symmetric NAT,
/// a single one otherwise.
pub fn sweep_width(nt: &Option<NatType>) -> (r: u16)
    ensures
        r == (if *nt == Some(NatType::Symmetric) {
            PORT_SWEEP as int
        } else {
            1int
        }),
{
    match nt {
        Some(NatType::Symmetric) => PORT_SWEEP,
        _ => 1,
    }
}

/// The candidate port for sweep index `i` against an observed source port:
/// each port band advances by `i` and wraps back to the band's base when
/// its upper bound would be passed.
pub open spec fn spec_predict_port(p: u16, i: u16) -> int {
    if p <= 1024 {
        p + i
    } else if p <= 16383 {
        if 65535 - p < i {
            p - 1025 + i
        } else {
            p + i
        }
    } else if p <= 32767 {
        if 32767 - p < i {
            p - 16384 + i
        } else {
            p + i
        }
    } else if p <= 49151 {
        if 60999 - p < i {
            p - 32768 + i
        } else {
            p + i
        }
    } else {
        if 65535 - p < i {
            p - 49152 + i
        } else {
            p + i
        }
    }
}

/// The candidate port for one sweep index.
pub fn predict_port(p: u16, i: u16) -> (r: u16)
    requires
        i < 1000,
    ensures
        r as int == spec_predict_port(p, i),
{
    if p <= 1024 {
        p + i
    } else if p <= 16383 {
        if 65535 - p < i {
            p - 1025 + i
        } else {
            p + i
        }
    } else if p <= 32767 {
        if 32767 - p < i {
            p - 16384 + i
        } else {
            p + i
        }
    } else if p <= 49151 {
        if 60999 - p < i {
            p - 32768 + i
        } else {
            p + i
        }
    } else {
        if 65535 - p < i {
            p - 49152 + i
        } else {
            p + i
        }
    }
}

/// The whole sweep: the candidate ports for indices up to the width.
pub fn port_candidates(p: u16, width: u16) -> (r: Vec<u16>)
    requires
        width <= 1000,
    ensures
        r@.len() == width,
        forall|k: int| 0 <= k < width ==> r@[k] as int == spec_predict_port(p, k as u16),
{
    let mut out: Vec<u16> = Vec::new();
    let mut i: u16 = 0;
    while i < width
        invariant
            i <= width <= 1000,
            out@.len() == i,
            forall|k: int| 0 <= k < i ==> out@[k] as int == spec_predict_port(p, k as u16),
        decreases width - i,
    {
        out.push(predict_port(p, i));
        i = i + 1;
    }
    out
}

impl Header {
    /// The rendezvous preamble an initiator or responder sends: identifier,
    /// the peer's address as the sender knows it, and optionally the
    /// address the sender observed for itself.
    pub fn new_p2p(mac: Mac, addr: &NetAddr, self_addr: Option<&NetAddr>) -> (r: Header)
        ensures
            r.method@ == method_p2p(),
            r.uri@ == uri_p2p(),
            r.version@ == version_http11(),
            r.entries() == p2p_entries(mac@, addr@, match self_addr {
                None => None,
                Some(x) => Some(x@),
            }),
            r.wf(),
    {
        let method: Vec<u8> = vec![80u8, 50u8, 80u8];
        let uri: Vec<u8> = vec![47u8, 112u8, 50u8, 112u8];
        Header::new_p2p_with(method, uri, mac, addr, self_addr)
    }

    /// The probe preamble: as the rendezvous one, with the probe uri.
    pub fn new_p2ptest(mac: Mac, addr: &NetAddr, self_addr: Option<&NetAddr>) -> (r: Header)
        ensures
            r.method@ == method_p2p(),
            r.uri@ == uri_p2ptest(),
            r.version@ == version_http11(),
            r.entries() == p2p_entries(mac@, addr@, match self_addr {
                None => None,
                Some(x) => Some(x@),
            }),
            r.wf(),
    {
        let method: Vec<u8> = vec![80u8, 50u8, 80u8];
        let uri: Vec<u8> = vec![47u8, 112u8, 50u8, 112u8, 116u8, 101u8, 115u8, 116u8];
        Header::new_p2p_with(method, uri, mac, addr, self_addr)
    }

    fn new_p2p_with(method: Vec<u8>, uri: Vec<u8>, mac: Mac, addr: &NetAddr, self_addr: Option<
        &NetAddr,
    >) -> (r: Header)
        requires
            method@ == method_p2p(),
        ensures
            r.method@ == method@,
            r.uri@ == uri@,
            r.version@ == version_http11(),
            r.entries() == p2p_entries(mac@, addr@, match self_addr {
                None => None,
                Some(x) => Some(x@),
            }),
            r.wf(),
    {
        let version: Vec<u8> = vec![72u8, 84u8, 84u8, 80u8, 47u8, 49u8, 46u8, 49u8];
        proof {
            assert(version@ =~= version_http11());
        }
        let mut h = Header { method, uri, version, headers: Vec::new() };
        h.headers.push((key_mac_bytes(), mac.format()));
        h.headers.push((key_addr_bytes(), format_addr(addr)));
        match self_addr {
            None => {
                proof {
                    assert(h.entries() =~~= p2p_entries(mac@, addr@, None));
                    assert(h.wf());
                }
            },
            Some(x) => {
                h.headers.push((key_self_addr_bytes(), format_addr(x)));
                proof {
                    assert(h.entries() =~~= p2p_entries(mac@, addr@, Some(x@)));
                    assert(h.wf());
                }
            },
        }
        h
    }

    /// Reads the rendezvous fields back out of a preamble: the identifier
    /// under `mac`, the address under `addr`, and optionally the sender's
    /// self-observed address.  Each error code names the missing or
    /// malformed field, and a preamble whose fields are well-formed — as
    /// every preamble built by [`Header::new_p2p`] is — always reads back;
    /// the returned addresses format to the stored text, which by
    /// [`crate::addrtext::lemma_format_addr_injective`] pins them exactly.
    pub fn parse_p2p(&self) -> (r: Result<(Mac, NetAddr, Option<NetAddr>), RwebError>)
        ensures
            r matches Ok((m, a, sa)) ==> {
                &&& (lookup(self.entries(), key_mac()) matches Some(mt)
                    && is_valid_mac_hex(strip_separators(mt)) && m@ == mac_of_hex(
                    strip_separators(mt),
                ))
                &&& (lookup(self.entries(), key_addr()) matches Some(at) && wf_addr(a@)
                    && spec_format_addr(a@) == at)
                &&& (match sa {
                    None => lookup(self.entries(), key_self_addr()) is None,
                    Some(x) => lookup(self.entries(), key_self_addr()) matches Some(st)
                        && wf_addr(x@) && spec_format_addr(x@) == st,
                })
            },
            lookup(self.entries(), key_mac()) is None ==> (r matches Err(e) && e.code == 2401),
            (lookup(self.entries(), key_mac()) matches Some(mt) && !is_valid_mac_hex(
                strip_separators(mt),
            )) ==> (r matches Err(e) && e.code == 2402),
            (lookup(self.entries(), key_mac()) matches Some(mt) && is_valid_mac_hex(
                strip_separators(mt),
            ) && lookup(self.entries(), key_addr()) is None) ==> (r matches Err(e) && e.code
                == 2403),
            r matches Err(e) ==> (e.code == 2401 || e.code == 2402 || e.code == 2403 || e.code
                == 61 || e.code == 62),
            (match (
                lookup(self.entries(), key_mac()),
                lookup(self.entries(), key_addr()),
                lookup(self.entries(), key_self_addr()),
            ) {
                (Some(mt), Some(at), sa) => is_valid_mac_hex(strip_separators(mt))
                    && is_canonical_addr_text(at) && (match sa {
                    None => true,
                    Some(st) => is_canonical_addr_text(st),
                }),
                _ => false,
            }) ==> r is Ok,
    {
        let mac_key = key_mac_bytes();
        let mt = match self.get(mac_key.as_slice()) {
            None => {
                return Err(RwebError::new(2401, "header error"));
            },
            Some(v) => v,
        };
        let m = match Mac::from_text(mt.as_slice()) {
            Err(_) => {
                return Err(RwebError::new(2402, "header error"));
            },
            Ok(m) => m,
        };
        let addr_key = key_addr_bytes();
        let at = match self.get(addr_key.as_slice()) {
            None => {
                return Err(RwebError::new(2403, "header error"));
            },
            Some(v) => v,
        };
        let a = match parse_addr(at.as_slice()) {
            None => {
                return Err(RwebError::new(61, "addr error"));
            },
            Some(a) => a,
        };
        let self_key = key_self_addr_bytes();
        let sa = match self.get(self_key.as_slice()) {
            None => None,
            Some(st) => match parse_addr(st.as_slice()) {
                None => {
                    return Err(RwebError::new(62, "addr error"));
                },
                Some(x) => Some(x),
            },
        };
        Ok((m, a, sa))
    }

    /// Annotates a forwarded rendezvous preamble with the peer's NAT
    /// classification, when the peer reported an address for itself.
    pub fn annotate_nat_type(&mut self, observed: &NetAddr, self_reported: Option<&NetAddr>)
        ensures
            self_reported is None ==> *final(self) == *old(self),
            (self_reported matches Some(x) && x@ != observed@) ==> final(self).entries()
                == upsert(old(self).entries(), key_nat_type(), nat_symmetric()),
            (self_reported matches Some(x) && x@ == observed@) ==> final(self).entries()
                == upsert(old(self).entries(), key_nat_type(), nat_fullcone()),
            self_reported is Some ==> (final(self).method@ == old(self).method@
                && final(self).uri@ == old(self).uri@
                && final(self).version@ == old(self).version@),
            old(self).wf() ==> final(self).wf(),
    {
        match nat_type_for(observed, self_reported) {
            None => {},
            Some(NatType::Symmetric) => {
                self.insert(key_nat_type_bytes(), nat_symmetric_bytes());
            },
            Some(NatType::FullCone) => {
                self.insert(key_nat_type_bytes(), nat_fullcone_bytes());
            },
        }
    }

    /// The sweep width a rendezvous preamble asks for: the full sweep
    /// exactly when it claims the peer sits behind a symmetric NAT.
    pub fn sweep_width_of(&self) -> (r: u16)
        ensures
            r == (if lookup(self.entries(), key_nat_type()) == Some(nat_symmetric()) {
                PORT_SWEEP as int
            } else {
                1int
            }),
    {
        let key = key_nat_type_bytes();
        match self.get(key.as_slice()) {
            None => 1,
            Some(v) => {
                let sym = nat_symmetric_bytes();
                if bytes_eq(v.as_slice(), sym.as_slice()) {
                    PORT_SWEEP
                } else {
                    1
                }
            },
        }
    }
}

/// The header mapping of a rendezvous preamble.
pub open spec fn p2p_entries(mac: Seq<u8>, addr: crate::codec::AddrModel, self_addr: Option<
    crate::codec::AddrModel,
>) -> Seq<(Seq<u8>, Seq<u8>)> {
    match self_addr {
        None => seq![
            (key_mac(), text_of_mac(mac)),
            (key_addr(), spec_format_addr(addr)),
        ],
        Some(x) => seq![
            (key_mac(), text_of_mac(mac)),
            (key_addr(), spec_format_addr(addr)),
            (key_self_addr(), spec_format_addr(x)),
        ],
    }
}

} // verus!
