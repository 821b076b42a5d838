//! Text form of network addresses, as they travel in rendezvous headers:
//! `a.b.c.d:port` for the one family, `[g:g:g:g:g:g:g:g]:port` with
//! lower-case hex groups for the other.
//!
//! Formatting always emits this canonical form, and the parser accepts
//! exactly it: whatever it accepts re-formats to the very input.

use vstd::prelude::*;

use crate::codec::{wf_addr, AddrModel, NetAddr};
use crate::mac::{hex_char_lower, hex_val};
use crate::text::{
    byte_delim, find_byte, find_byte_spec, join_byte, lemma_find_byte_char, lemma_join_no_byte,
    lemma_join_split, lemma_split_join, lemma_split_on_clean, lemma_split_on_prefix, split_byte,
    split_on, views_of,
};

verus! {

/// Decimal digits of a non-negative number, most significant first.
pub open spec fn dec_digits(n: int) -> Seq<u8>
    decreases n,
{
    if n < 10 {
        seq![(48 + n) as u8]
    } else {
        dec_digits(n / 10).push((48 + n % 10) as u8)
    }
}

/// Lower-case hex digits of a non-negative number, most significant first.
pub open spec fn hex_digits(n: int) -> Seq<u8>
    decreases n,
{
    if n < 16 {
        seq![hex_char_lower(n as u8)]
    } else {
        hex_digits(n / 16).push(hex_char_lower((n % 16) as u8))
    }
}

/// Appends the decimal digits of a number.
pub fn push_dec(out: &mut Vec<u8>, n: u16)
    ensures
        final(out)@ == old(out)@.add(dec_digits(n as int)),
    decreases n,
{
    if n < 10 {
        out.push(48 + (n as u8));
        proof {
            assert(old(out)@.push((48 + n) as u8) =~= old(out)@.add(dec_digits(n as int)));
        }
    } else {
        push_dec(out, n / 10);
        out.push(48 + ((n % 10) as u8));
        proof {
            assert(old(out)@.add(dec_digits((n / 10) as int)).push((48 + n % 10) as u8)
                =~= old(out)@.add(dec_digits(n as int)));
        }
    }
}

/// Appends the lower-case hex digits of a number.
pub fn push_hex(out: &mut Vec<u8>, n: u16)
    ensures
        final(out)@ == old(out)@.add(hex_digits(n as int)),
    decreases n,
{
    if n < 16 {
        let d = n as u8;
        out.push(
            if d < 10 {
                48 + d
            } else {
                87 + d
            },
        );
        proof {
            assert(old(out)@.push(hex_char_lower(n as u8)) =~= old(out)@.add(
                hex_digits(n as int),
            ));
        }
    } else {
        push_hex(out, n / 16);
        let d = (n % 16) as u8;
        out.push(
            if d < 10 {
                48 + d
            } else {
                87 + d
            },
        );
        proof {
            assert(old(out)@.add(hex_digits((n / 16) as int)).push(
                hex_char_lower((n % 16) as u8),
            ) =~= old(out)@.add(hex_digits(n as int)));
        }
    }
}

/// The sixteen-bit group at position `k` of sixteen address octets.
pub open spec fn group_of(ip: Seq<u8>, k: int) -> int {
    (ip[2 * k] as int) * 256 + (ip[2 * k + 1] as int)
}

/// The text of the eight hex groups, colon-separated.
pub open spec fn v6_groups_text(ip: Seq<u8>) -> Seq<Seq<u8>> {
    Seq::new(8, |k: int| hex_digits(group_of(ip, k)))
}

/// Canonical text of an address.
pub open spec fn spec_format_addr(a: AddrModel) -> Seq<u8> {
    match a {
        AddrModel::V4(ip, port) => dec_digits(ip[0] as int).add(seq![46u8]).add(
            dec_digits(ip[1] as int),
        ).add(seq![46u8]).add(dec_digits(ip[2] as int)).add(seq![46u8]).add(
            dec_digits(ip[3] as int),
        ).add(seq![58u8]).add(dec_digits(port as int)),
        AddrModel::V6(ip, port) => seq![91u8].add(join_byte(v6_groups_text(ip), 58)).add(
            seq![93u8, 58u8],
        ).add(dec_digits(port as int)),
    }
}

proof fn lemma_join_snoc(gs: Seq<Seq<u8>>, x: Seq<u8>, d: u8)
    ensures
        join_byte(gs.push(x), d) == (if gs.len() == 0 {
            x
        } else {
            join_byte(gs, d).add(seq![d]).add(x)
        }),
    decreases gs.len(),
{
    if gs.len() == 0 {
        assert(gs.push(x)[0] == x);
        assert(join_byte(gs.push(x), d) =~= x);
    } else {
        lemma_join_snoc(gs.drop_first(), x, d);
        assert(gs.push(x).drop_first() =~~= gs.drop_first().push(x));
        assert(gs.push(x)[0] == gs[0]);
        if gs.len() == 1 {
            assert(join_byte(gs, d) == gs[0]);
            assert(join_byte(gs.push(x), d) =~= join_byte(gs, d).add(seq![d]).add(x));
        } else {
            assert(join_byte(gs.push(x), d) =~= join_byte(gs, d).add(seq![d]).add(x));
        }
    }
}

/// Canonical text of an address.
pub fn format_addr(a: &NetAddr) -> (r: Vec<u8>)
    ensures
        r@ == spec_format_addr(a@),
{
    let mut out: Vec<u8> = Vec::new();
    match a {
        NetAddr::V4 { ip, port } => {
            push_dec(&mut out, ip[0] as u16);
            out.push(46);
            push_dec(&mut out, ip[1] as u16);
            out.push(46);
            push_dec(&mut out, ip[2] as u16);
            out.push(46);
            push_dec(&mut out, ip[3] as u16);
            out.push(58);
            push_dec(&mut out, *port);
            proof {
                assert(out@ =~= spec_format_addr(a@));
            }
        },
        NetAddr::V6 { ip, port } => {
            out.push(91);
            let ghost texts = v6_groups_text(ip@);
            let mut k: usize = 0;
            proof {
                assert(out@ =~= seq![91u8].add(join_byte(texts.take(0), 58)));
            }
            while k < 8
                invariant
                    k <= 8,
                    ip@.len() == 16,
                    texts == v6_groups_text(ip@),
                    out@ == seq![91u8].add(join_byte(texts.take(k as int), 58)),
                decreases 8 - k,
            {
                if k > 0 {
                    out.push(58);
                }
                let g: u16 = (ip[2 * k] as u16) * 256 + (ip[2 * k + 1] as u16);
                proof {
                    assert(g as int == group_of(ip@, k as int));
                }
                push_hex(&mut out, g);
                proof {
                    lemma_join_snoc(texts.take(k as int), texts[k as int], 58);
                    assert(texts.take(k + 1) =~~= texts.take(k as int).push(texts[k as int]));
                    assert(out@ =~= seq![91u8].add(join_byte(texts.take(k + 1), 58)));
                }
                k = k + 1;
            }
            out.push(93);
            out.push(58);
            push_dec(&mut out, *port);
            proof {
                assert(texts.take(8) =~~= texts);
                assert(out@ =~= spec_format_addr(a@));
            }
        },
    }
    out
}

/// Value of a decimal digit string.
pub open spec fn dec_val(t: Seq<u8>) -> int
    decreases t.len(),
{
    if t.len() == 0 {
        0
    } else {
        dec_val(t.drop_last()) * 10 + (t.last() - 48)
    }
}

/// Value of a lower-case hex digit string.
pub open spec fn hex_val_seq(t: Seq<u8>) -> int
    decreases t.len(),
{
    if t.len() == 0 {
        0
    } else {
        hex_val_seq(t.drop_last()) * 16 + hex_val(t.last())
    }
}

/// A canonical decimal number: digits only, no redundant leading zero.
pub open spec fn canonical_dec(t: Seq<u8>) -> bool {
    t.len() >= 1 && (forall|i: int| 0 <= i < t.len() ==> 48 <= #[trigger] t[i] <= 57) && (t.len()
        == 1 || t[0] != 48)
}

/// A canonical hex group: lower-case hex digits, no redundant leading zero.
pub open spec fn canonical_hex(t: Seq<u8>) -> bool {
    t.len() >= 1 && (forall|i: int|
        0 <= i < t.len() ==> (48 <= #[trigger] t[i] <= 57 || 97 <= t[i] <= 102)) && (t.len() == 1
        || t[0] != 48)
}

/// Ten to the k-th power.
spec fn pow10(k: int) -> int
    decreases k,
{
    if k <= 0 {
        1
    } else {
        10 * pow10(k - 1)
    }
}

/// Sixteen to the k-th power.
spec fn pow16(k: int) -> int
    decreases k,
{
    if k <= 0 {
        1
    } else {
        16 * pow16(k - 1)
    }
}

/// The digits of a non-negative number are canonical and evaluate back to
/// it.
proof fn lemma_dec_digits_props(n: int)
    requires
        n >= 0,
    ensures
        canonical_dec(dec_digits(n)),
        dec_val(dec_digits(n)) == n,
        n >= 1 ==> dec_digits(n)[0] != 48,
    decreases n,
{
    if n < 10 {
        let t = dec_digits(n);
        assert(t =~= seq![(48 + n) as u8]);
        assert(t.drop_last() =~= Seq::<u8>::empty());
        assert(dec_val(t.drop_last()) == 0);
        assert(dec_val(t) == n);
    } else {
        lemma_dec_digits_props(n / 10);
        let t = dec_digits(n);
        let t2 = dec_digits(n / 10);
        assert(t == t2.push((48 + n % 10) as u8));
        assert(t.drop_last() =~= t2);
        assert(t.last() == (48 + n % 10) as u8);
        assert(dec_val(t) == dec_val(t2) * 10 + n % 10);
        assert(n / 10 * 10 + n % 10 == n);
        assert forall|i: int| 0 <= i < t.len() implies 48 <= #[trigger] t[i] <= 57 by {
            if i < t.len() - 1 {
                assert(t[i] == t2[i]);
            }
        }
        assert(t[0] == t2[0]);
    }
}

/// The hex digits of a non-negative number are canonical and evaluate back
/// to it.
proof fn lemma_hex_digits_props(n: int)
    requires
        n >= 0,
    ensures
        canonical_hex(hex_digits(n)),
        hex_val_seq(hex_digits(n)) == n,
        n >= 1 ==> hex_digits(n)[0] != 48,
    decreases n,
{
    if n < 16 {
        let t = hex_digits(n);
        assert(t =~= seq![hex_char_lower(n as u8)]);
        assert(t.drop_last() =~= Seq::<u8>::empty());
        assert(hex_val_seq(t.drop_last()) == 0);
        assert(hex_val(hex_char_lower(n as u8)) == n);
        assert(hex_val_seq(t) == n);
    } else {
        lemma_hex_digits_props(n / 16);
        let t = hex_digits(n);
        let t2 = hex_digits(n / 16);
        assert(t == t2.push(hex_char_lower((n % 16) as u8)));
        assert(t.drop_last() =~= t2);
        assert(t.last() == hex_char_lower((n % 16) as u8));
        assert(hex_val(hex_char_lower((n % 16) as u8)) == n % 16);
        assert(hex_val_seq(t) == hex_val_seq(t2) * 16 + n % 16);
        assert(n / 16 * 16 + n % 16 == n);
        assert forall|i: int| 0 <= i < t.len() implies (48 <= #[trigger] t[i] <= 57 || 97 <= t[i]
            <= 102) by {
            if i < t.len() - 1 {
                assert(t[i] == t2[i]);
            }
        }
        assert(t[0] == t2[0]);
    }
}

/// A string of digits has a non-negative value.
proof fn lemma_dec_val_nonneg(t: Seq<u8>)
    requires
        forall|i: int| 0 <= i < t.len() ==> 48 <= #[trigger] t[i] <= 57,
    ensures
        dec_val(t) >= 0,
    decreases t.len(),
{
    if t.len() > 0 {
        lemma_dec_val_nonneg(t.drop_last());
    }
}

/// A digit string without a leading zero is at least its place value.
proof fn lemma_dec_lower_bound(t: Seq<u8>)
    requires
        t.len() >= 1,
        forall|i: int| 0 <= i < t.len() ==> 48 <= #[trigger] t[i] <= 57,
        t[0] != 48,
    ensures
        dec_val(t) >= pow10(t.len() - 1),
    decreases t.len(),
{
    if t.len() == 1 {
        assert(t.drop_last() =~= Seq::<u8>::empty());
        assert(dec_val(t.drop_last()) == 0);
    } else {
        let t2 = t.drop_last();
        assert(t2[0] == t[0]);
        lemma_dec_lower_bound(t2);
        assert(dec_val(t2) * 10 >= pow10(t.len() - 2) * 10);
        assert(t.last() - 48 >= 0);
    }
}

/// A lower-case hex string without a leading zero is at least its place
/// value.
proof fn lemma_hex_lower_bound(t: Seq<u8>)
    requires
        t.len() >= 1,
        forall|i: int| 0 <= i < t.len() ==> (48 <= #[trigger] t[i] <= 57 || 97 <= t[i] <= 102),
        t[0] != 48,
    ensures
        hex_val_seq(t) >= pow16(t.len() - 1),
    decreases t.len(),
{
    if t.len() == 1 {
        assert(t.drop_last() =~= Seq::<u8>::empty());
        assert(hex_val_seq(t.drop_last()) == 0);
        assert(hex_val(t[0]) >= 1);
    } else {
        let t2 = t.drop_last();
        assert(t2[0] == t[0]);
        lemma_hex_lower_bound(t2);
        assert(hex_val_seq(t2) * 16 >= pow16(t.len() - 2) * 16);
        assert(hex_val(t.last()) >= 0);
    }
}

/// The value of a digit-string prefix never exceeds the whole string's.
proof fn lemma_dec_prefix_le(t: Seq<u8>, j: int)
    requires
        forall|i: int| 0 <= i < t.len() ==> 48 <= #[trigger] t[i] <= 57,
        0 <= j <= t.len(),
    ensures
        dec_val(t.take(j)) <= dec_val(t),
    decreases t.len() - j,
{
    if j == t.len() {
        assert(t.take(j) =~= t);
    } else {
        lemma_dec_prefix_le(t, j + 1);
        assert(t.take(j + 1).drop_last() =~= t.take(j));
        assert(t.take(j + 1).last() == t[j]);
        assert forall|i: int| 0 <= i < t.take(j).len() implies 48 <= #[trigger] t.take(j)[i]
            <= 57 by {
            assert(t.take(j)[i] == t[i]);
        }
        lemma_dec_val_nonneg(t.take(j));
        assert(dec_val(t.take(j + 1)) == dec_val(t.take(j)) * 10 + (t[j] - 48));
        assert(dec_val(t.take(j)) * 10 >= dec_val(t.take(j)));
    }
}

proof fn lemma_pow10_pos(k: int)
    ensures
        pow10(k) >= 1,
    decreases k,
{
    if k > 0 {
        lemma_pow10_pos(k - 1);
    }
}

proof fn lemma_pow10_mono(a: int, b: int)
    requires
        0 <= a <= b,
    ensures
        pow10(a) <= pow10(b),
    decreases b,
{
    if b > a {
        lemma_pow10_mono(a, b - 1);
        lemma_pow10_pos(b - 1);
    }
}

proof fn lemma_pow16_pos(k: int)
    ensures
        pow16(k) >= 1,
    decreases k,
{
    if k > 0 {
        lemma_pow16_pos(k - 1);
    }
}

proof fn lemma_pow16_mono(a: int, b: int)
    requires
        0 <= a <= b,
    ensures
        pow16(a) <= pow16(b),
    decreases b,
{
    if b > a {
        lemma_pow16_mono(a, b - 1);
        lemma_pow16_pos(b - 1);
    }
}

proof fn lemma_dec_canonical(t: Seq<u8>)
    requires
        canonical_dec(t),
    ensures
        dec_val(t) >= 0,
        t[0] != 48 ==> dec_val(t) >= 1,
        dec_digits(dec_val(t)) == t,
    decreases t.len(),
{
    if t.len() == 1 {
        assert(t.drop_last() =~= Seq::<u8>::empty());
        assert(dec_val(t.drop_last()) == 0);
        assert(dec_val(t) == t[0] - 48);
        assert(dec_digits(dec_val(t)) =~= t);
    } else {
        let t2 = t.drop_last();
        assert(t2[0] == t[0]);
        lemma_dec_canonical(t2);
        let v = dec_val(t);
        let d = t.last() - 48;
        assert(v == dec_val(t2) * 10 + d);
        assert(dec_val(t2) >= 1);
        assert(v >= 10);
        assert(v / 10 == dec_val(t2) && v % 10 == d) by (nonlinear_arith)
            requires
                v == dec_val(t2) * 10 + d,
                0 <= d < 10,
                dec_val(t2) >= 0,
        ;
        assert(dec_digits(v) == dec_digits(dec_val(t2)).push((48 + d) as u8));
        assert(dec_digits(dec_val(t2)).push((48 + d) as u8) =~= t);
    }
}

proof fn lemma_hex_canonical(t: Seq<u8>)
    requires
        canonical_hex(t),
    ensures
        hex_val_seq(t) >= 0,
        t[0] != 48 ==> hex_val_seq(t) >= 1,
        hex_digits(hex_val_seq(t)) == t,
    decreases t.len(),
{
    if t.len() == 1 {
        assert(t.drop_last() =~= Seq::<u8>::empty());
        assert(hex_val_seq(t.drop_last()) == 0);
        assert(hex_val_seq(t) == hex_val(t[0]));
        assert(hex_char_lower(hex_val(t[0])) == t[0]);
        assert(hex_digits(hex_val_seq(t)) =~= t);
    } else {
        let t2 = t.drop_last();
        assert(t2[0] == t[0]);
        lemma_hex_canonical(t2);
        let v = hex_val_seq(t);
        let d = hex_val(t.last()) as int;
        assert(v == hex_val_seq(t2) * 16 + d);
        assert(hex_val_seq(t2) >= 1);
        assert(v >= 16);
        assert(v / 16 == hex_val_seq(t2) && v % 16 == d) by (nonlinear_arith)
            requires
                v == hex_val_seq(t2) * 16 + d,
                0 <= d < 16,
                hex_val_seq(t2) >= 0,
        ;
        assert(hex_char_lower(hex_val(t.last())) == t.last());
        assert(hex_digits(v) == hex_digits(hex_val_seq(t2)).push(hex_char_lower(d as u8)));
        assert(hex_digits(hex_val_seq(t2)).push(hex_char_lower(d as u8)) =~= t);
    }
}

/// Parses a canonical decimal number of at most the given value; it
/// succeeds on every canonical digit string whose value fits.
fn parse_dec(t: &[u8], max: u16) -> (r: Option<u16>)
    ensures
        r matches Some(n) ==> n <= max && dec_digits(n as int) == t@,
        (canonical_dec(t@) && dec_val(t@) <= max) ==> r is Some,
{
    if t.len() == 0 || t.len() > 5 {
        proof {
            if canonical_dec(t@) && dec_val(t@) <= max && t@.len() > 5 {
                lemma_dec_lower_bound(t@);
                lemma_pow10_mono(5, t@.len() - 1);
                assert(pow10(0) == 1);
                assert(pow10(1) == 10);
                assert(pow10(2) == 100);
                assert(pow10(3) == 1000);
                assert(pow10(4) == 10000);
                assert(pow10(5) == 100000);
            }
        }
        return None;
    }
    if t.len() > 1 && t[0] == 48 {
        return None;
    }
    let mut val: u32 = 0;
    let mut i: usize = 0;
    proof {
        assert(t@.take(0) =~= Seq::<u8>::empty());
    }
    while i < t.len()
        invariant
            i <= t@.len() <= 5,
            val == dec_val(t@.take(i as int)),
            val <= max <= 65535,
            forall|k: int| 0 <= k < i ==> 48 <= #[trigger] t@[k] <= 57,
        decreases t@.len() - i,
    {
        let c = t[i];
        if c < 48 || c > 57 {
            proof {
                if canonical_dec(t@) {
                    assert(48 <= t@[i as int] <= 57);
                }
            }
            return None;
        }
        val = val * 10 + ((c - 48) as u32);
        proof {
            assert(t@.take(i + 1).drop_last() =~= t@.take(i as int));
            assert(t@.take(i + 1).last() == t@[i as int]);
        }
        if val > max as u32 {
            proof {
                if canonical_dec(t@) && dec_val(t@) <= max {
                    lemma_dec_prefix_le(t@, i + 1);
                }
            }
            return None;
        }
        i = i + 1;
    }
    proof {
        assert(t@.take(t@.len() as int) =~= t@);
        lemma_dec_canonical(t@);
    }
    Some(val as u16)
}

/// Parses a canonical hex group; it succeeds on every canonical hex
/// string whose value fits sixteen bits.
fn parse_hex_group(t: &[u8]) -> (r: Option<u16>)
    ensures
        r matches Some(n) ==> hex_digits(n as int) == t@,
        (canonical_hex(t@) && hex_val_seq(t@) <= 65535) ==> r is Some,
{
    if t.len() == 0 || t.len() > 4 {
        proof {
            if canonical_hex(t@) && hex_val_seq(t@) <= 65535 && t@.len() > 4 {
                lemma_hex_lower_bound(t@);
                lemma_pow16_mono(4, t@.len() - 1);
                assert(pow16(0) == 1);
                assert(pow16(1) == 16);
                assert(pow16(2) == 256);
                assert(pow16(3) == 4096);
                assert(pow16(4) == 65536);
            }
        }
        return None;
    }
    if t.len() > 1 && t[0] == 48 {
        return None;
    }
    let mut val: u32 = 0;
    let mut i: usize = 0;
    proof {
        assert(t@.take(0) =~= Seq::<u8>::empty());
    }
    while i < t.len()
        invariant
            i <= t@.len() <= 4,
            val == hex_val_seq(t@.take(i as int)),
            val <= 65535,
            i < 4 ==> val <= 4095,
            i < 3 ==> val <= 255,
            i < 2 ==> val <= 15,
            i < 1 ==> val == 0,
            forall|k: int|
                0 <= k < i ==> (48 <= #[trigger] t@[k] <= 57 || 97 <= t@[k] <= 102),
        decreases t@.len() - i,
    {
        let c = t[i];
        let d: u32 = if 48 <= c && c <= 57 {
            (c - 48) as u32
        } else if 97 <= c && c <= 102 {
            (c - 87) as u32
        } else {
            proof {
                if canonical_hex(t@) {
                    assert(48 <= t@[i as int] <= 57 || 97 <= t@[i as int] <= 102);
                }
            }
            return None;
        };
        val = val * 16 + d;
        proof {
            assert(t@.take(i + 1).drop_last() =~= t@.take(i as int));
            assert(t@.take(i + 1).last() == t@[i as int]);
            assert(d == hex_val(t@[i as int]));
        }
        i = i + 1;
    }
    proof {
        assert(t@.take(t@.len() as int) =~= t@);
        lemma_hex_canonical(t@);
    }
    Some(val as u16)
}

/// The dotted text of four octets.
pub open spec fn v4_octet_texts(ip: Seq<u8>) -> Seq<Seq<u8>> {
    seq![
        dec_digits(ip[0] as int),
        dec_digits(ip[1] as int),
        dec_digits(ip[2] as int),
        dec_digits(ip[3] as int),
    ]
}

/// Bytes that are the canonical text of some address.
pub open spec fn is_canonical_addr_text(s: Seq<u8>) -> bool {
    exists|a: AddrModel| wf_addr(a) && spec_format_addr(a) == s
}

proof fn lemma_digits_free(tx: Seq<u8>, b: u8)
    requires
        forall|i: int| 0 <= i < tx.len() ==> 48 <= #[trigger] tx[i] <= 57,
        b < 48 || b > 57,
    ensures
        forall|i: int| 0 <= i < tx.len() ==> #[trigger] tx[i] != b,
{
}

proof fn lemma_hex_free(tx: Seq<u8>, b: u8)
    requires
        forall|i: int| 0 <= i < tx.len() ==> (48 <= #[trigger] tx[i] <= 57 || 97 <= tx[i] <= 102),
        b < 48 || (57 < b && b < 97) || b > 102,
    ensures
        forall|i: int| 0 <= i < tx.len() ==> #[trigger] tx[i] != b,
{
}

/// How the canonical text of a four-octet address decomposes: the dotted
/// part and the port split on the colon, and the octet texts split on the
/// dots.
#[verifier::rlimit(60)]
proof fn lemma_format_v4_facts(ip: Seq<u8>, port: u16)
    requires
        ip.len() == 4,
    ensures
        ({
            let s = spec_format_addr(AddrModel::V4(ip, port));
            let dotted = join_byte(v4_octet_texts(ip), 46);
            &&& s.len() > 0
            &&& 48 <= s[0] <= 57
            &&& split_on(s, byte_delim(58)) == seq![dotted, dec_digits(port as int)]
            &&& split_on(dotted, byte_delim(46)) == v4_octet_texts(ip)
        }),
{
    let s = spec_format_addr(AddrModel::V4(ip, port));
    let texts = v4_octet_texts(ip);
    let dotted = join_byte(texts, 46);
    lemma_dec_digits_props(ip[0] as int);
    lemma_dec_digits_props(ip[1] as int);
    lemma_dec_digits_props(ip[2] as int);
    lemma_dec_digits_props(ip[3] as int);
    lemma_dec_digits_props(port as int);
    let t1 = texts.drop_first();
    let t2 = t1.drop_first();
    let t3 = t2.drop_first();
    assert(t3.len() == 1 && t3[0] == texts[3]);
    assert(join_byte(t3, 46) == texts[3]);
    assert(t2.len() == 2 && t2[0] == texts[2] && t2.drop_first() =~~= t3);
    assert(join_byte(t2, 46) =~= texts[2].add(seq![46u8]).add(texts[3]));
    assert(t1.len() == 3 && t1[0] == texts[1] && t1.drop_first() =~~= t2);
    assert(join_byte(t1, 46) =~= texts[1].add(seq![46u8]).add(texts[2]).add(seq![46u8]).add(
        texts[3],
    ));
    assert(texts.drop_first() =~~= t1);
    assert(dotted =~= texts[0].add(seq![46u8]).add(texts[1]).add(seq![46u8]).add(texts[2]).add(
        seq![46u8],
    ).add(texts[3]));
    assert(s =~= dotted.add(seq![58u8]).add(dec_digits(port as int)));
    assert forall|i: int, j: int|
        0 <= i < texts.len() && 0 <= j < texts[i].len() implies #[trigger] texts[i][j] != 46 by {
        assert(48 <= texts[i][j] <= 57);
    }
    assert forall|i: int, j: int|
        0 <= i < texts.len() && 0 <= j < texts[i].len() implies #[trigger] texts[i][j] != 58 by {
        assert(48 <= texts[i][j] <= 57);
    }
    lemma_join_no_byte(texts, 46, 58);
    lemma_digits_free(dec_digits(port as int), 58);
    lemma_split_on_prefix(dotted, 58, dec_digits(port as int), byte_delim(58));
    lemma_split_on_clean(dec_digits(port as int), byte_delim(58));
    assert(split_on(s, byte_delim(58)) =~~= seq![dotted, dec_digits(port as int)]);
    lemma_join_split(texts, 46);
    assert(s[0] == dotted[0]);
    assert(dotted[0] == texts[0][0]);
}

/// How the canonical text of a sixteen-octet address decomposes: the
/// bracketed group text, the closing bracket and colon, and the port.
proof fn lemma_format_v6_facts(ip: Seq<u8>, port: u16)
    requires
        ip.len() == 16,
    ensures
        ({
            let s = spec_format_addr(AddrModel::V6(ip, port));
            let inside = join_byte(v6_groups_text(ip), 58);
            &&& s.len() > 0
            &&& s[0] == 91
            &&& find_byte_spec(s, 93) == Some(1 + inside.len() as int)
            &&& 1 + inside.len() as int + 2 <= s.len()
            &&& s[1 + inside.len() as int + 1] == 58
            &&& s.subrange(1, 1 + inside.len() as int) == inside
            &&& s.skip(1 + inside.len() as int + 2) == dec_digits(port as int)
            &&& split_on(inside, byte_delim(58)) == v6_groups_text(ip)
        }),
{
    let s = spec_format_addr(AddrModel::V6(ip, port));
    let texts = v6_groups_text(ip);
    let inside = join_byte(texts, 58);
    assert forall|k: int| 0 <= k < 8 implies 0 <= #[trigger] group_of(ip, k) <= 65535 by {
        assert(ip[2 * k] <= 255 && ip[2 * k + 1] <= 255);
    }
    assert forall|k: int| 0 <= k < 8 implies canonical_hex(#[trigger] texts[k])
        && hex_val_seq(texts[k]) == group_of(ip, k) by {
        lemma_hex_digits_props(group_of(ip, k));
    }
    lemma_dec_digits_props(port as int);
    assert forall|i: int, j: int|
        0 <= i < texts.len() && 0 <= j < texts[i].len() implies #[trigger] texts[i][j] != 93 by {
        assert(canonical_hex(texts[i]));
        assert(48 <= texts[i][j] <= 57 || 97 <= texts[i][j] <= 102);
    }
    assert forall|i: int, j: int|
        0 <= i < texts.len() && 0 <= j < texts[i].len() implies #[trigger] texts[i][j] != 58 by {
        assert(canonical_hex(texts[i]));
        assert(48 <= texts[i][j] <= 57 || 97 <= texts[i][j] <= 102);
    }
    lemma_join_no_byte(texts, 58, 93);
    assert(s =~= seq![91u8].add(inside).add(seq![93u8, 58u8]).add(dec_digits(port as int)));
    assert(s[0] == 91);
    assert(s[1 + inside.len() as int] == 93);
    assert forall|k: int| 0 <= k < 1 + inside.len() as int implies s[k] != 93 by {
        if k >= 1 {
            assert(s[k] == inside[k - 1]);
        }
    }
    lemma_find_byte_char(s, 93, 1 + inside.len() as int);
    assert(s[1 + inside.len() as int + 1] == 58);
    assert(s.subrange(1, 1 + inside.len() as int) =~= inside);
    assert(s.skip(1 + inside.len() as int + 2) =~= dec_digits(port as int));
    lemma_join_split(texts, 58);
}

/// Canonical address text determines the address: two well-formed
/// addresses with the same text are one address.
pub proof fn lemma_format_addr_injective(a: AddrModel, b: AddrModel)
    requires
        wf_addr(a),
        wf_addr(b),
        spec_format_addr(a) == spec_format_addr(b),
    ensures
        a == b,
{
    let s = spec_format_addr(a);
    match (a, b) {
        (AddrModel::V4(ia, pa), AddrModel::V4(ib, pb)) => {
            lemma_format_v4_facts(ia, pa);
            lemma_format_v4_facts(ib, pb);
            let segs = split_on(s, byte_delim(58));
            assert(segs[0] == join_byte(v4_octet_texts(ia), 46));
            assert(segs[0] == join_byte(v4_octet_texts(ib), 46));
            assert(segs[1] == dec_digits(pa as int));
            assert(segs[1] == dec_digits(pb as int));
            lemma_dec_digits_props(pa as int);
            lemma_dec_digits_props(pb as int);
            assert(pa == pb);
            let dsegs = split_on(segs[0], byte_delim(46));
            assert(dsegs == v4_octet_texts(ia));
            assert(dsegs == v4_octet_texts(ib));
            assert forall|k: int| 0 <= k < 4 implies ia[k] == ib[k] by {
                assert(v4_octet_texts(ia)[k] == dec_digits(ia[k] as int));
                assert(v4_octet_texts(ib)[k] == dec_digits(ib[k] as int));
                lemma_dec_digits_props(ia[k] as int);
                lemma_dec_digits_props(ib[k] as int);
            }
            assert(ia =~= ib);
        },
        (AddrModel::V6(ia, pa), AddrModel::V6(ib, pb)) => {
            lemma_format_v6_facts(ia, pa);
            lemma_format_v6_facts(ib, pb);
            let la = join_byte(v6_groups_text(ia), 58).len() as int;
            let lb = join_byte(v6_groups_text(ib), 58).len() as int;
            assert(find_byte_spec(s, 93) == Some(1 + la));
            assert(find_byte_spec(s, 93) == Some(1 + lb));
            assert(la == lb);
            assert(s.subrange(1, 1 + la) == join_byte(v6_groups_text(ia), 58));
            assert(s.subrange(1, 1 + la) == join_byte(v6_groups_text(ib), 58));
            let gsegs = split_on(s.subrange(1, 1 + la), byte_delim(58));
            assert(gsegs == v6_groups_text(ia));
            assert(gsegs == v6_groups_text(ib));
            assert(s.skip(1 + la + 2) == dec_digits(pa as int));
            assert(s.skip(1 + la + 2) == dec_digits(pb as int));
            lemma_dec_digits_props(pa as int);
            lemma_dec_digits_props(pb as int);
            assert(pa == pb);
            assert forall|i: int| 0 <= i < 16 implies ia[i] == ib[i] by {
                let k = i / 2;
                assert(0 <= k < 8);
                assert(v6_groups_text(ia)[k] == hex_digits(group_of(ia, k)));
                assert(v6_groups_text(ib)[k] == hex_digits(group_of(ib, k)));
                lemma_hex_digits_props(group_of(ia, k));
                lemma_hex_digits_props(group_of(ib, k));
                assert(group_of(ia, k) == group_of(ib, k));
                lemma_group_parts(ia[2 * k], ia[2 * k + 1], ib[2 * k], ib[2 * k + 1]);
                assert(i == 2 * k || i == 2 * k + 1);
            }
            assert(ia =~= ib);
        },
        (AddrModel::V4(ia, pa), AddrModel::V6(ib, pb)) => {
            lemma_format_v4_facts(ia, pa);
            lemma_format_v6_facts(ib, pb);
        },
        (AddrModel::V6(ia, pa), AddrModel::V4(ib, pb)) => {
            lemma_format_v6_facts(ia, pa);
            lemma_format_v4_facts(ib, pb);
        },
    }
}

/// Equal sixteen-bit groups have equal high and low octets.
proof fn lemma_group_parts(h1: u8, l1: u8, h2: u8, l2: u8)
    requires
        (h1 as int) * 256 + (l1 as int) == (h2 as int) * 256 + (l2 as int),
    ensures
        h1 == h2,
        l1 == l2,
{
    assert(h1 == h2 && l1 == l2) by (nonlinear_arith)
        requires
            (h1 as int) * 256 + (l1 as int) == (h2 as int) * 256 + (l2 as int),
            0 <= l1 < 256,
            0 <= l2 < 256,
            0 <= h1,
            0 <= h2,
    ;
}

/// Canonical address text that opens with a bracket is the format of a
/// sixteen-octet address.
proof fn lemma_canonical_v6_shape(s: Seq<u8>)
    requires
        is_canonical_addr_text(s),
        s.len() > 0,
        s[0] == 91,
    ensures
        exists|ip: Seq<u8>, port: u16|
            ip.len() == 16 && #[trigger] spec_format_addr(AddrModel::V6(ip, port)) == s,
{
    let a = choose|a: AddrModel| wf_addr(a) && spec_format_addr(a) == s;
    match a {
        AddrModel::V4(ip, port) => {
            lemma_format_v4_facts(ip, port);
        },
        AddrModel::V6(ip, port) => {
            assert(ip.len() == 16 && spec_format_addr(AddrModel::V6(ip, port)) == s);
        },
    }
}

/// Canonical address text that does not open with a bracket is the format
/// of a four-octet address.
proof fn lemma_canonical_v4_shape(s: Seq<u8>)
    requires
        is_canonical_addr_text(s),
        s.len() == 0 || s[0] != 91,
    ensures
        exists|ip: Seq<u8>, port: u16|
            ip.len() == 4 && #[trigger] spec_format_addr(AddrModel::V4(ip, port)) == s,
{
    let a = choose|a: AddrModel| wf_addr(a) && spec_format_addr(a) == s;
    match a {
        AddrModel::V4(ip, port) => {
            assert(ip.len() == 4 && spec_format_addr(AddrModel::V4(ip, port)) == s);
        },
        AddrModel::V6(ip, port) => {
            lemma_format_v6_facts(ip, port);
        },
    }
}

/// At an octet parse of canonical four-octet text, the segment at hand is
/// the canonical digits of that octet.
proof fn lemma_v4_octet_site(s: Seq<u8>, outer: Seq<Seq<u8>>, dots: Seq<Seq<u8>>, k: int)
    requires
        s.len() == 0 || s[0] != 91,
        outer == split_on(s, byte_delim(58)),
        outer.len() == 2,
        dots == split_on(outer[0], byte_delim(46)),
        dots.len() == 4,
        0 <= k < 4,
    ensures
        is_canonical_addr_text(s) ==> (canonical_dec(dots[k]) && 0 <= dec_val(dots[k]) <= 255),
{
    if is_canonical_addr_text(s) {
        lemma_canonical_v4_shape(s);
        let (ip, port) = choose|ip: Seq<u8>, port: u16|
            ip.len() == 4 && #[trigger] spec_format_addr(AddrModel::V4(ip, port)) == s;
        lemma_format_v4_facts(ip, port);
        assert(dots[k] == v4_octet_texts(ip)[k]);
        assert(dots[k] == dec_digits(ip[k] as int));
        lemma_dec_digits_props(ip[k] as int);
    }
}

/// Parses the canonical text of an address: it accepts exactly what
/// [`format_addr`] produces — whatever it accepts re-formats to the very
/// input, and it succeeds on every canonical text.
pub fn parse_addr(s: &[u8]) -> (r: Option<NetAddr>)
    ensures
        r matches Some(a) ==> wf_addr(a@) && spec_format_addr(a@) == s@,
        is_canonical_addr_text(s@) ==> r is Some,
{
    if s.len() == 0 {
        proof {
            if is_canonical_addr_text(s@) {
                let a = choose|a: AddrModel| wf_addr(a) && spec_format_addr(a) == s@;
                match a {
                    AddrModel::V4(ip, port) => {
                        lemma_format_v4_facts(ip, port);
                    },
                    AddrModel::V6(ip, port) => {
                        lemma_format_v6_facts(ip, port);
                    },
                }
            }
        }
        return None;
    }
    if s[0] == 91 {
        let cb = match find_byte(s, 93) {
            None => {
                proof {
                    if is_canonical_addr_text(s@) {
                        lemma_canonical_v6_shape(s@);
                        let (ip, port) = choose|ip: Seq<u8>, port: u16|
                            ip.len() == 16 && #[trigger] spec_format_addr(
                                AddrModel::V6(ip, port),
                            ) == s@;
                        lemma_format_v6_facts(ip, port);
                    }
                }
                return None;
            },
            Some(cb) => cb,
        };
        if cb + 1 >= s.len() || s[cb + 1] != 58 || cb < 1 {
            proof {
                if is_canonical_addr_text(s@) {
                    lemma_canonical_v6_shape(s@);
                    let (ip, port) = choose|ip: Seq<u8>, port: u16|
                        ip.len() == 16 && #[trigger] spec_format_addr(AddrModel::V6(ip, port))
                            == s@;
                    lemma_format_v6_facts(ip, port);
                }
            }
            return None;
        }
        let inside = vstd::slice::slice_subrange(s, 1, cb);
        let portb = vstd::slice::slice_subrange(s, cb + 2, s.len());
        let port = match parse_dec(portb, 65535) {
            None => {
                proof {
                    if is_canonical_addr_text(s@) {
                        lemma_canonical_v6_shape(s@);
                        let (ip, port2) = choose|ip: Seq<u8>, port2: u16|
                            ip.len() == 16 && #[trigger] spec_format_addr(
                                AddrModel::V6(ip, port2),
                            ) == s@;
                        lemma_format_v6_facts(ip, port2);
                        assert(portb@ =~= s@.skip(cb + 2));
                        lemma_dec_digits_props(port2 as int);
                    }
                }
                return None;
            },
            Some(p) => p,
        };
        let groups = split_byte(inside, 58);
        if groups.len() != 8 {
            proof {
                if is_canonical_addr_text(s@) {
                    lemma_canonical_v6_shape(s@);
                    let (ip, port2) = choose|ip: Seq<u8>, port2: u16|
                        ip.len() == 16 && #[trigger] spec_format_addr(AddrModel::V6(ip, port2))
                            == s@;
                    lemma_format_v6_facts(ip, port2);
                    assert(inside@ =~= s@.subrange(1, cb as int));
                    assert(views_of(groups@).len() == groups@.len());
                }
            }
            return None;
        }
        let mut gs: Vec<u16> = Vec::new();
        let mut k: usize = 0;
        while k < 8
            invariant
                k <= 8,
                gs@.len() == k,
                groups@.len() == 8,
                s@.len() > 0,
                s@[0] == 91,
                find_byte_spec(s@, 93) == Some(cb as int),
                inside@ == s@.subrange(1, cb as int),
                views_of(groups@) == split_on(inside@, byte_delim(58)),
                forall|j: int|
                    0 <= j < k ==> hex_digits(gs@[j] as int) == (#[trigger] groups@[j])@,
            decreases 8 - k,
        {
            let g = match parse_hex_group(groups[k].as_slice()) {
                None => {
                    proof {
                        if is_canonical_addr_text(s@) {
                            lemma_canonical_v6_shape(s@);
                            let (ip, port2) = choose|ip: Seq<u8>, port2: u16|
                                ip.len() == 16 && #[trigger] spec_format_addr(
                                    AddrModel::V6(ip, port2),
                                ) == s@;
                            lemma_format_v6_facts(ip, port2);
                            assert(views_of(groups@)[k as int] == groups@[k as int]@);
                            assert(groups@[k as int]@ == v6_groups_text(ip)[k as int]);
                            assert(0 <= group_of(ip, k as int) <= 65535);
                            lemma_hex_digits_props(group_of(ip, k as int));
                        }
                    }
                    return None;
                },
                Some(g) => g,
            };
            gs.push(g);
            k = k + 1;
        }
        let mut ip = [0u8, 0u8, 0u8, 0u8, 0u8, 0u8, 0u8, 0u8, 0u8, 0u8, 0u8, 0u8, 0u8, 0u8, 0u8, 0u8];
        let mut j: usize = 0;
        while j < 8
            invariant
                j <= 8,
                gs@.len() == 8,
                ip@.len() == 16,
                forall|k2: int| 0 <= k2 < j ==> group_of(ip@, k2) == gs@[k2] as int,
            decreases 8 - j,
        {
            let ghost old_ip = ip@;
            ip[2 * j] = (gs[j] / 256) as u8;
            ip[2 * j + 1] = (gs[j] % 256) as u8;
            proof {
                assert forall|k2: int| 0 <= k2 < j + 1 implies group_of(ip@, k2) == gs@[k2] as int
                    by {
                    if k2 < j {
                        assert(ip@[2 * k2] == old_ip[2 * k2]);
                        assert(ip@[2 * k2 + 1] == old_ip[2 * k2 + 1]);
                    } else {
                        assert(gs@[k2] / 256 * 256 + gs@[k2] % 256 == gs@[k2]);
                    }
                }
            }
            j = j + 1;
        }
        let a = NetAddr::V6 { ip, port };
        proof {
            lemma_split_join(inside@, 58);
            assert forall|j: int| 0 <= j < 8 implies views_of(groups@)[j] == v6_groups_text(
                ip@,
            )[j] by {
                assert(views_of(groups@)[j] == groups@[j]@);
                assert(hex_digits(gs@[j] as int) == groups@[j]@);
                assert(group_of(ip@, j) == gs@[j] as int);
            }
            assert(views_of(groups@) =~~= v6_groups_text(ip@));
            assert(inside@ == join_byte(v6_groups_text(ip@), 58));
            assert(s@ =~= seq![s@[0]].add(inside@).add(seq![s@[cb as int], s@[cb + 1]]).add(
                portb@,
            ));
            assert(spec_format_addr(a@) =~= s@);
        }
        Some(a)
    } else {
        let outer = split_byte(s, 58);
        if outer.len() != 2 {
            proof {
                if is_canonical_addr_text(s@) {
                    lemma_canonical_v4_shape(s@);
                    let (ip, port2) = choose|ip: Seq<u8>, port2: u16|
                        ip.len() == 4 && #[trigger] spec_format_addr(AddrModel::V4(ip, port2))
                            == s@;
                    lemma_format_v4_facts(ip, port2);
                    assert(views_of(outer@).len() == outer@.len());
                }
            }
            return None;
        }
        let port = match parse_dec(outer[1].as_slice(), 65535) {
            None => {
                proof {
                    if is_canonical_addr_text(s@) {
                        lemma_canonical_v4_shape(s@);
                        let (ip, port2) = choose|ip: Seq<u8>, port2: u16|
                            ip.len() == 4 && #[trigger] spec_format_addr(
                                AddrModel::V4(ip, port2),
                            ) == s@;
                        lemma_format_v4_facts(ip, port2);
                        assert(views_of(outer@)[1] == outer@[1]@);
                        lemma_dec_digits_props(port2 as int);
                    }
                }
                return None;
            },
            Some(p) => p,
        };
        let dots = split_byte(outer[0].as_slice(), 46);
        if dots.len() != 4 {
            proof {
                if is_canonical_addr_text(s@) {
                    lemma_canonical_v4_shape(s@);
                    let (ip, port2) = choose|ip: Seq<u8>, port2: u16|
                        ip.len() == 4 && #[trigger] spec_format_addr(AddrModel::V4(ip, port2))
                            == s@;
                    lemma_format_v4_facts(ip, port2);
                    assert(views_of(outer@)[0] == outer@[0]@);
                    assert(views_of(dots@).len() == dots@.len());
                }
            }
            return None;
        }
        let o0 = match parse_dec(dots[0].as_slice(), 255) {
            None => {
                proof {
                    lemma_v4_octet_site(s@, views_of(outer@), views_of(dots@), 0);
                }
                return None;
            },
            Some(v) => v,
        };
        let o1 = match parse_dec(dots[1].as_slice(), 255) {
            None => {
                proof {
                    lemma_v4_octet_site(s@, views_of(outer@), views_of(dots@), 1);
                }
                return None;
            },
            Some(v) => v,
        };
        let o2 = match parse_dec(dots[2].as_slice(), 255) {
            None => {
                proof {
                    lemma_v4_octet_site(s@, views_of(outer@), views_of(dots@), 2);
                }
                return None;
            },
            Some(v) => v,
        };
        let o3 = match parse_dec(dots[3].as_slice(), 255) {
            None => {
                proof {
                    lemma_v4_octet_site(s@, views_of(outer@), views_of(dots@), 3);
                }
                return None;
            },
            Some(v) => v,
        };
        let a = NetAddr::V4 { ip: [o0 as u8, o1 as u8, o2 as u8, o3 as u8], port };
        proof {
            lemma_split_join(s@, 58);
            lemma_split_join(outer@[0]@, 46);
            let segs = split_on(s@, byte_delim(58));
            assert(views_of(outer@)[0] == outer@[0]@ && views_of(outer@)[1] == outer@[1]@);
            assert(segs[0] == outer@[0]@ && segs[1] == outer@[1]@);
            let s1 = segs.drop_first();
            assert(s1.len() == 1 && s1[0] == segs[1]);
            assert(join_byte(s1, 58) == s1[0]);
            assert(join_byte(segs, 58) =~= segs[0].add(seq![58u8]).add(segs[1]));
            let dsegs = split_on(outer@[0]@, byte_delim(46));
            assert(views_of(dots@)[0] == dots@[0]@ && views_of(dots@)[1] == dots@[1]@
                && views_of(dots@)[2] == dots@[2]@ && views_of(dots@)[3] == dots@[3]@);
            assert(dsegs[0] == dots@[0]@ && dsegs[1] == dots@[1]@ && dsegs[2] == dots@[2]@
                && dsegs[3] == dots@[3]@);
            let d1 = dsegs.drop_first();
            let d2 = d1.drop_first();
            let d3 = d2.drop_first();
            assert(d3.len() == 1 && d3[0] == dsegs[3]);
            assert(join_byte(d3, 46) == d3[0]);
            assert(d2.len() == 2 && d2[0] == dsegs[2] && d2.drop_first() =~~= d3);
            assert(join_byte(d2, 46) =~= dsegs[2].add(seq![46u8]).add(dsegs[3]));
            assert(d1.len() == 3 && d1[0] == dsegs[1] && d1.drop_first() =~~= d2);
            assert(join_byte(d1, 46) =~= dsegs[1].add(seq![46u8]).add(dsegs[2]).add(
                seq![46u8],
            ).add(dsegs[3]));
            assert(dsegs.drop_first() =~~= d1);
            assert(join_byte(dsegs, 46) =~= dsegs[0].add(seq![46u8]).add(dsegs[1]).add(
                seq![46u8],
            ).add(dsegs[2]).add(seq![46u8]).add(dsegs[3]));
            assert(spec_format_addr(a@) =~= s@);
        }
        Some(a)
    }
}

} // verus!
