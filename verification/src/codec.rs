//! Binary wire codecs: the address record sent by the probe server and the
//! identifier list a node registers with.
//!
//! Address record: one family byte (4 or 6), the address octets, then the
//! port in big-endian.  Identifier list: a big-endian count, then six bytes
//! per identifier.

use vstd::prelude::*;

use crate::mac::Mac;
use crate::RwebError;

verus! {

/// The tag byte that opens a unidirectional control stream: an identifier
/// list, or an address record.
#[derive(Debug, Clone, Copy, PartialEq, Eq, Structural)]
pub enum UniCommand {
    MacList,
    Addr,
}

impl UniCommand {
    /// The command's wire byte.
    pub fn to_byte(&self) -> (r: u8)
        ensures
            r == (match *self {
                UniCommand::MacList => 0u8,
                UniCommand::Addr => 1u8,
            }),
    {
        match self {
            UniCommand::MacList => 0,
            UniCommand::Addr => 1,
        }
    }

    /// The command a wire byte denotes; anything else fails with code
    /// 2404.
    pub fn from_byte(b: u8) -> (r: Result<UniCommand, RwebError>)
        ensures
            b == 0 ==> r == Ok::<UniCommand, RwebError>(UniCommand::MacList),
            b == 1 ==> r == Ok::<UniCommand, RwebError>(UniCommand::Addr),
            b > 1 ==> (r matches Err(e) && e.code == 2404),
    {
        match b {
            0 => Ok(UniCommand::MacList),
            1 => Ok(UniCommand::Addr),
            _ => Err(RwebError::new(2404, "unknown command")),
        }
    }
}

/// A network address as plain values: address octets plus port.
/// The asynchronous edge converts between this and its socket addresses.
#[derive(Debug, Clone, Copy)]
pub enum NetAddr {
    V4 { ip: [u8; 4], port: u16 },
    V6 { ip: [u8; 16], port: u16 },
}

/// The mathematical model of an address: the family, its octets, its port.
pub enum AddrModel {
    V4(Seq<u8>, u16),
    V6(Seq<u8>, u16),
}

impl View for NetAddr {
    type V = AddrModel;

    open spec fn view(&self) -> AddrModel {
        match *self {
            NetAddr::V4 { ip, port } => AddrModel::V4(ip@, port),
            NetAddr::V6 { ip, port } => AddrModel::V6(ip@, port),
        }
    }
}

/// An address model whose octet count matches its family.
pub open spec fn wf_addr(a: AddrModel) -> bool {
    match a {
        AddrModel::V4(ip, _) => ip.len() == 4,
        AddrModel::V6(ip, _) => ip.len() == 16,
    }
}

/// The port a big-endian byte pair denotes.
pub open spec fn port_of(hi: u8, lo: u8) -> u16 {
    ((hi as u16) * 256 + (lo as u16)) as u16
}

/// Wire form of an address record.
pub open spec fn spec_encode_addr(a: AddrModel) -> Seq<u8> {
    match a {
        AddrModel::V4(ip, port) => seq![4u8].add(ip).add(
            seq![(port / 256) as u8, (port % 256) as u8],
        ),
        AddrModel::V6(ip, port) => seq![6u8].add(ip).add(
            seq![(port / 256) as u8, (port % 256) as u8],
        ),
    }
}

/// The address record at the front of a byte sequence, if any, with the
/// number of bytes it occupies.
pub open spec fn spec_decode_addr(s: Seq<u8>) -> Option<(AddrModel, int)> {
    if s.len() >= 7 && s[0] == 4 {
        Some((AddrModel::V4(s.subrange(1, 5), port_of(s[5], s[6])), 7))
    } else if s.len() >= 19 && s[0] == 6 {
        Some((AddrModel::V6(s.subrange(1, 17), port_of(s[17], s[18])), 19))
    } else {
        None
    }
}

impl NetAddr {
    /// The port of the address.
    pub fn port(&self) -> (r: u16)
        ensures
            r == match self@ {
                AddrModel::V4(_, p) => p,
                AddrModel::V6(_, p) => p,
            },
    {
        match *self {
            NetAddr::V4 { ip: _, port } => port,
            NetAddr::V6 { ip: _, port } => port,
        }
    }

    /// The same address with another port.
    pub fn with_port(&self, port: u16) -> (r: NetAddr)
        ensures
            r@ == match self@ {
                AddrModel::V4(ip, _) => AddrModel::V4(ip, port),
                AddrModel::V6(ip, _) => AddrModel::V6(ip, port),
            },
    {
        match *self {
            NetAddr::V4 { ip, port: _ } => NetAddr::V4 { ip, port },
            NetAddr::V6 { ip, port: _ } => NetAddr::V6 { ip, port },
        }
    }

    /// Structural equality of two addresses: family, octets and port.
    pub fn same(&self, other: &NetAddr) -> (r: bool)
        ensures
            r == (self@ == other@),
    {
        match (self, other) {
            (NetAddr::V4 { ip: a, port: p }, NetAddr::V4 { ip: b, port: q }) => {
                let mut i: usize = 0;
                let mut eq: bool = *p == *q;
                while i < 4
                    invariant
                        i <= 4,
                        eq == (*p == *q && forall|k: int| 0 <= k < i ==> a@[k] == b@[k]),
                    decreases 4 - i,
                {
                    eq = eq && a[i] == b[i];
                    i = i + 1;
                }
                proof {
                    if eq {
                        assert(a@ =~= b@);
                    } else {
                        if self@ == other@ {
                            assert(a@ == b@ && *p == *q);
                        }
                    }
                }
                eq
            },
            (NetAddr::V6 { ip: a, port: p }, NetAddr::V6 { ip: b, port: q }) => {
                let mut i: usize = 0;
                let mut eq: bool = *p == *q;
                while i < 16
                    invariant
                        i <= 16,
                        eq == (*p == *q && forall|k: int| 0 <= k < i ==> a@[k] == b@[k]),
                    decreases 16 - i,
                {
                    eq = eq && a[i] == b[i];
                    i = i + 1;
                }
                proof {
                    if eq {
                        assert(a@ =~= b@);
                    } else {
                        if self@ == other@ {
                            assert(a@ == b@ && *p == *q);
                        }
                    }
                }
                eq
            },
            _ => false,
        }
    }

    /// Wire form of the address record.
    pub fn encode(&self) -> (r: Vec<u8>)
        ensures
            r@ == spec_encode_addr(self@),
    {
        let mut out: Vec<u8> = Vec::new();
        match *self {
            NetAddr::V4 { ip, port } => {
                out.push(4);
                let mut i: usize = 0;
                while i < 4
                    invariant
                        i <= 4,
                        out@ == seq![4u8].add(ip@.take(i as int)),
                    decreases 4 - i,
                {
                    proof {
                        assert(seq![4u8].add(ip@.take(i + 1)) =~= seq![4u8].add(
                            ip@.take(i as int),
                        ).push(ip@[i as int]));
                    }
                    out.push(ip[i]);
                    i = i + 1;
                }
                out.push((port / 256) as u8);
                out.push((port % 256) as u8);
                proof {
                    assert(ip@.take(4) =~= ip@);
                    assert(out@ =~= spec_encode_addr(self@));
                }
            },
            NetAddr::V6 { ip, port } => {
                out.push(6);
                let mut i: usize = 0;
                while i < 16
                    invariant
                        i <= 16,
                        out@ == seq![6u8].add(ip@.take(i as int)),
                    decreases 16 - i,
                {
                    proof {
                        assert(seq![6u8].add(ip@.take(i + 1)) =~= seq![6u8].add(
                            ip@.take(i as int),
                        ).push(ip@[i as int]));
                    }
                    out.push(ip[i]);
                    i = i + 1;
                }
                out.push((port / 256) as u8);
                out.push((port % 256) as u8);
                proof {
                    assert(ip@.take(16) =~= ip@);
                    assert(out@ =~= spec_encode_addr(self@));
                }
            },
        }
        out
    }

    /// Reads the address record at the front of a buffer, returning it and
    /// the number of bytes consumed.  Fails with code 500 on an empty
    /// buffer, 505 on an unknown family byte, and 501 to 504 when the
    /// record is truncated.
    pub fn decode(s: &[u8]) -> (r: Result<(NetAddr, usize), RwebError>)
        ensures
            r is Ok <==> spec_decode_addr(s@) is Some,
            r matches Ok((a, used)) ==> spec_decode_addr(s@) == Some((a@, used as int)),
            s@.len() == 0 ==> (r matches Err(e) && e.code == 500),
            (s@.len() > 0 && s@[0] != 4 && s@[0] != 6) ==> (r matches Err(e) && e.code == 505),
            (s@.len() > 0 && s@[0] == 4 && s@.len() < 5) ==> (r matches Err(e) && e.code == 501),
            (5 <= s@.len() < 7 && s@[0] == 4) ==> (r matches Err(e) && e.code == 502),
            (s@.len() > 0 && s@[0] == 6 && s@.len() < 17) ==> (r matches Err(e) && e.code
                == 503),
            (17 <= s@.len() < 19 && s@[0] == 6) ==> (r matches Err(e) && e.code == 504),
    {
        if s.len() == 0 {
            return Err(RwebError::new(500, "addr error"));
        }
        if s[0] == 4 {
            if s.len() < 5 {
                return Err(RwebError::new(501, "addr error"));
            }
            if s.len() < 7 {
                return Err(RwebError::new(502, "addr error"));
            }
            let ip = [s[1], s[2], s[3], s[4]];
            let port = (s[5] as u16) * 256 + (s[6] as u16);
            proof {
                assert(ip@ =~= s@.subrange(1, 5));
            }
            Ok((NetAddr::V4 { ip, port }, 7))
        } else if s[0] == 6 {
            if s.len() < 17 {
                return Err(RwebError::new(503, "addr error"));
            }
            if s.len() < 19 {
                return Err(RwebError::new(504, "addr error"));
            }
            let ip = [
                s[1],
                s[2],
                s[3],
                s[4],
                s[5],
                s[6],
                s[7],
                s[8],
                s[9],
                s[10],
                s[11],
                s[12],
                s[13],
                s[14],
                s[15],
                s[16],
            ];
            let port = (s[17] as u16) * 256 + (s[18] as u16);
            proof {
                assert(ip@ =~= s@.subrange(1, 17));
            }
            Ok((NetAddr::V6 { ip, port }, 19))
        } else {
            Err(RwebError::new(505, "addr error"))
        }
    }
}

/// Law: an encoded address decodes back to itself, consuming exactly the
/// encoding, for both families.
pub proof fn lemma_addr_codec_round_trip(a: AddrModel)
    requires
        wf_addr(a),
    ensures
        spec_decode_addr(spec_encode_addr(a)) == Some((a, spec_encode_addr(a).len() as int)),
{
    match a {
        AddrModel::V4(ip, port) => {
            let s = spec_encode_addr(a);
            assert(s.len() == 7);
            assert(s[0] == 4);
            assert(s.subrange(1, 5) =~= ip);
            assert(port / 256 < 256);
            assert(port_of(s[5], s[6]) == port) by {
                assert(port / 256 * 256 + port % 256 == port);
            }
        },
        AddrModel::V6(ip, port) => {
            let s = spec_encode_addr(a);
            assert(s.len() == 19);
            assert(s[0] == 6);
            assert(s.subrange(1, 17) =~= ip);
            assert(port / 256 < 256);
            assert(port_of(s[17], s[18]) == port) by {
                assert(port / 256 * 256 + port % 256 == port);
            }
        },
    }
}

/// Law: whatever an address decode accepts re-encodes to exactly the bytes
/// it consumed.
pub proof fn lemma_addr_codec_exact(s: Seq<u8>)
    ensures
        spec_decode_addr(s) matches Some((a, used)) ==> wf_addr(a) && spec_encode_addr(a)
            == s.take(used),
{
    if spec_decode_addr(s) is Some {
        let (a, used) = spec_decode_addr(s)->Some_0;
        match a {
            AddrModel::V4(ip, port) => {
                assert(port == port_of(s[5], s[6]));
                assert(port / 256 == s[5] && port % 256 == s[6]) by {
                    assert((s[5] as u16) * 256 + (s[6] as u16) < 65536);
                }
                assert(spec_encode_addr(a) =~= s.take(used));
            },
            AddrModel::V6(ip, port) => {
                assert(port / 256 == s[17] && port % 256 == s[18]) by {
                    assert((s[17] as u16) * 256 + (s[18] as u16) < 65536);
                }
                assert(spec_encode_addr(a) =~= s.take(used));
            },
        }
    }
}

/// The views of a sequence of identifiers.
pub open spec fn mac_views(ms: Seq<Mac>) -> Seq<Seq<u8>> {
    ms.map_values(|m: Mac| m@)
}

/// The concatenation of identifier byte forms.
pub open spec fn concat_macs(ms: Seq<Seq<u8>>) -> Seq<u8>
    decreases ms.len(),
{
    if ms.len() == 0 {
        Seq::empty()
    } else {
        ms[0].add(concat_macs(ms.drop_first()))
    }
}

/// Wire form of an identifier list: big-endian count, then six bytes per
/// identifier.
pub open spec fn spec_encode_mac_list(ms: Seq<Seq<u8>>) -> Seq<u8> {
    seq![(ms.len() / 256) as u8, (ms.len() % 256) as u8].add(concat_macs(ms))
}

/// The identifier list at the front of a byte sequence, if it is complete,
/// with the number of bytes it occupies.
pub open spec fn spec_decode_mac_list(s: Seq<u8>) -> Option<(Seq<Seq<u8>>, int)> {
    if s.len() < 2 {
        None
    } else {
        let n = (s[0] as int) * 256 + (s[1] as int);
        if s.len() >= 2 + 6 * n {
            Some((Seq::new(n as nat, |i: int| s.subrange(2 + 6 * i, 8 + 6 * i)), 2 + 6 * n))
        } else {
            None
        }
    }
}

/// Wire form of a list of identifiers.  The count must fit the two-byte
/// field.
pub fn encode_mac_list(macs: &Vec<Mac>) -> (r: Vec<u8>)
    requires
        macs@.len() <= 65535,
    ensures
        r@ == spec_encode_mac_list(mac_views(macs@)),
{
    let n = macs.len();
    let mut out: Vec<u8> = Vec::new();
    out.push(((n / 256) as u16) as u8);
    out.push(((n % 256) as u16) as u8);
    let ghost prefix = seq![
        (mac_views(macs@).len() / 256) as u8,
        (mac_views(macs@).len() % 256) as u8,
    ];
    proof {
        assert(mac_views(macs@).len() == macs@.len());
        assert(out@ =~= prefix);
    }
    let mut i: usize = 0;
    while i < macs.len()
        invariant
            i <= macs@.len(),
            macs@.len() <= 65535,
            out@ == prefix.add(concat_macs(mac_views(macs@.take(i as int)))),
        decreases macs@.len() - i,
    {
        let b = macs[i].bytes();
        let mut j: usize = 0;
        while j < 6
            invariant
                j <= 6,
                i < macs@.len(),
                b@ == macs@[i as int]@,
                b@.len() == 6,
                out@ == prefix.add(concat_macs(mac_views(macs@.take(i as int)))).add(
                    b@.take(j as int),
                ),
            decreases 6 - j,
        {
            out.push(b[j]);
            proof {
                assert(prefix.add(concat_macs(mac_views(macs@.take(i as int)))).add(
                    b@.take(j + 1),
                ) =~= prefix.add(concat_macs(mac_views(macs@.take(i as int)))).add(
                    b@.take(j as int),
                ).push(b@[j as int]));
            }
            j = j + 1;
        }
        proof {
            assert(b@.take(6) =~= b@);
            lemma_concat_macs_snoc(mac_views(macs@.take(i as int)), b@);
            assert(mac_views(macs@.take(i + 1)) =~~= mac_views(macs@.take(i as int)).push(b@));
        }
        i = i + 1;
    }
    proof {
        assert(macs@.take(macs@.len() as int) =~= macs@);
        assert(out@ =~= spec_encode_mac_list(mac_views(macs@)));
    }
    out
}

/// Reads the identifier list at the front of a buffer, returning it and
/// the number of bytes consumed.  Fails with code 500 when the buffer is
/// shorter than the count demands.
pub fn decode_mac_list(s: &[u8]) -> (r: Result<(Vec<Mac>, usize), RwebError>)
    ensures
        r is Ok <==> spec_decode_mac_list(s@) is Some,
        r matches Ok((ms, used)) ==> spec_decode_mac_list(s@) == Some(
            (mac_views(ms@), used as int),
        ),
        r matches Err(e) ==> e.code == 500,
    {
    if s.len() < 2 {
        return Err(RwebError::new(500, "mac list error"));
    }
    let n: usize = (s[0] as usize) * 256 + (s[1] as usize);
    if (s.len() - 2) / 6 < n {
        proof {
            assert(s@.len() < 2 + 6 * (n as int)) by (nonlinear_arith)
                requires
                    ((s@.len() - 2) as int) / 6 < n as int,
                    s@.len() >= 2,
            ;
        }
        return Err(RwebError::new(500, "mac list error"));
    }
    proof {
        assert(s@.len() >= 2 + 6 * (n as int)) by (nonlinear_arith)
            requires
                ((s@.len() - 2) as int) / 6 >= n as int,
                s@.len() >= 2,
        ;
    }
    let ghost model = Seq::new(n as nat, |i: int| s@.subrange(2 + 6 * i, 8 + 6 * i));
    let total = s.len();
    let mut out: Vec<Mac> = Vec::new();
    let mut i: usize = 0;
    while i < n
        invariant
            i <= n,
            total == s@.len(),
            s@.len() >= 2 + 6 * (n as int),
            model == Seq::new(n as nat, |k: int| s@.subrange(2 + 6 * k, 8 + 6 * k)),
            mac_views(out@) == model.take(i as int),
        decreases n - i,
    {
        proof {
            assert(2 + 6 * (i as int) + 6 <= 2 + 6 * (n as int));
        }
        let base = 2 + 6 * i;
        let m = Mac::from_bytes(
            [s[base], s[base + 1], s[base + 2], s[base + 3], s[base + 4], s[base + 5]],
        );
        proof {
            assert(m@ =~= s@.subrange(2 + 6 * (i as int), 8 + 6 * (i as int)));
            assert(m@ == model[i as int]);
            assert(mac_views(out@).len() == model.take(i as int).len());
            assert(out@.len() == i);
            assert forall|k: int| 0 <= k < i + 1 implies mac_views(out@.push(m))[k]
                == model.take(i + 1)[k] by {
                if k < i {
                    assert(mac_views(out@)[k] == model.take(i as int)[k]);
                }
            }
            assert(mac_views(out@.push(m)) =~~= model.take(i + 1));
        }
        out.push(m);
        i = i + 1;
    }
    proof {
        assert(model.take(n as int) =~~= model);
        assert(spec_decode_mac_list(s@) == Some((mac_views(out@), 2 + 6 * (n as int))));
    }
    Ok((out, 2 + 6 * n))
}

proof fn lemma_concat_macs_snoc(ms: Seq<Seq<u8>>, m: Seq<u8>)
    ensures
        concat_macs(ms.push(m)) == concat_macs(ms).add(m),
    decreases ms.len(),
{
    if ms.len() == 0 {
        assert(ms.push(m).drop_first() =~~= Seq::<Seq<u8>>::empty());
        assert(concat_macs(Seq::<Seq<u8>>::empty()) == Seq::<u8>::empty());
        assert(concat_macs(ms.push(m)) =~= concat_macs(ms).add(m));
    } else {
        assert(ms.push(m).drop_first() =~~= ms.drop_first().push(m));
        lemma_concat_macs_snoc(ms.drop_first(), m);
        assert(concat_macs(ms.push(m)) =~= concat_macs(ms).add(m));
    }
}

proof fn lemma_concat_macs_index(ms: Seq<Seq<u8>>, i: int)
    requires
        forall|k: int| 0 <= k < ms.len() ==> (#[trigger] ms[k]).len() == 6,
        0 <= i < ms.len(),
    ensures
        concat_macs(ms).len() == 6 * ms.len(),
        concat_macs(ms).subrange(6 * i, 6 * i + 6) == ms[i],
    decreases ms.len(),
{
    lemma_concat_macs_len(ms);
    if i == 0 {
        assert(concat_macs(ms).subrange(0, 6) =~= ms[0]);
    } else {
        lemma_concat_macs_index(ms.drop_first(), i - 1);
        assert(concat_macs(ms).subrange(6 * i, 6 * i + 6) =~= concat_macs(
            ms.drop_first(),
        ).subrange(6 * (i - 1), 6 * (i - 1) + 6));
    }
}

proof fn lemma_concat_macs_len(ms: Seq<Seq<u8>>)
    requires
        forall|k: int| 0 <= k < ms.len() ==> (#[trigger] ms[k]).len() == 6,
    ensures
        concat_macs(ms).len() == 6 * ms.len(),
    decreases ms.len(),
{
    if ms.len() > 0 {
        lemma_concat_macs_len(ms.drop_first());
    }
}

/// Law: an encoded identifier list decodes back to the same identifiers,
/// consuming exactly the encoding, for any count up to the field's limit.
pub proof fn lemma_mac_list_round_trip(ms: Seq<Seq<u8>>)
    requires
        ms.len() <= 65535,
        forall|k: int| 0 <= k < ms.len() ==> (#[trigger] ms[k]).len() == 6,
    ensures
        spec_decode_mac_list(spec_encode_mac_list(ms)) == Some(
            (ms, spec_encode_mac_list(ms).len() as int),
        ),
{
    let s = spec_encode_mac_list(ms);
    let n = ms.len() as int;
    lemma_concat_macs_len(ms);
    assert(s.len() == 2 + 6 * n);
    assert(n / 256 < 256);
    assert((s[0] as int) * 256 + (s[1] as int) == n) by {
        assert(n / 256 * 256 + n % 256 == n);
    }
    let decoded = Seq::new(n as nat, |i: int| s.subrange(2 + 6 * i, 8 + 6 * i));
    assert forall|i: int| 0 <= i < n implies decoded[i] == ms[i] by {
        lemma_concat_macs_index(ms, i);
        assert(s.subrange(2 + 6 * i, 8 + 6 * i) =~= concat_macs(ms).subrange(
            6 * i,
            6 * i + 6,
        ));
    }
    assert(decoded =~~= ms);
}

} // verus!
