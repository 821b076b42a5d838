//! Six-byte identifiers and their twelve-hex-digit text form.
//!
//! An identifier is written as twelve hexadecimal digits, case-insensitive,
//! with `:`, `-` and whitespace accepted as separators and stripped on
//! parse.  Formatting always produces the normalized form: twelve
//! lower-case hex digits.

use vstd::prelude::*;

use crate::RwebError;

verus! {

/// A six-byte opaque label registered by a node and used to steer requests.
/// The all-zero value is reserved as "none".
#[derive(Debug, Clone, Copy)]
pub struct Mac {
    mac: [u8; 6],
}

impl View for Mac {
    type V = Seq<u8>;

    closed spec fn view(&self) -> Seq<u8> {
        self.mac@
    }
}

/// Separators accepted in identifier text: `:`, `-` and whitespace.
pub open spec fn is_mac_separator(c: u8) -> bool {
    c == 58 || c == 45 || c == 32 || c == 9 || c == 13 || c == 10
}

/// A hexadecimal digit, either case.
pub open spec fn is_hex_digit(c: u8) -> bool {
    (48 <= c && c <= 57) || (97 <= c && c <= 102) || (65 <= c && c <= 70)
}

/// Numeric value of a hexadecimal digit.
pub open spec fn hex_val(c: u8) -> u8 {
    if 48 <= c && c <= 57 {
        (c - 48) as u8
    } else if 97 <= c && c <= 102 {
        (c - 87) as u8
    } else if 65 <= c && c <= 70 {
        (c - 55) as u8
    } else {
        0
    }
}

/// Lower-case hexadecimal digit for a value below sixteen.
pub open spec fn hex_char_lower(v: u8) -> u8 {
    if v < 10 {
        (48 + v) as u8
    } else {
        (87 + v) as u8
    }
}

/// Identifier text with every separator removed.
pub open spec fn strip_separators(s: Seq<u8>) -> Seq<u8>
    decreases s.len(),
{
    if s.len() == 0 {
        Seq::empty()
    } else if is_mac_separator(s.last()) {
        strip_separators(s.drop_last())
    } else {
        strip_separators(s.drop_last()).push(s.last())
    }
}

/// Twelve stripped digits are a valid identifier text.
pub open spec fn is_valid_mac_hex(h: Seq<u8>) -> bool {
    h.len() == 12 && forall|i: int| 0 <= i < 12 ==> is_hex_digit(#[trigger] h[i])
}

/// The six bytes denoted by twelve hex digits.
pub open spec fn mac_of_hex(h: Seq<u8>) -> Seq<u8> {
    Seq::new(6, |i: int| (16 * hex_val(h[2 * i]) + hex_val(h[2 * i + 1])) as u8)
}

/// The canonical text of six bytes: twelve lower-case hex digits.
pub open spec fn text_of_mac(b: Seq<u8>) -> Seq<u8> {
    Seq::new(
        12,
        |i: int|
            if i % 2 == 0 {
                hex_char_lower(b[i / 2] / 16)
            } else {
                hex_char_lower(b[i / 2] % 16)
            },
    )
}

impl Mac {
    /// Builds an identifier directly from its six bytes.
    pub fn from_bytes(mac: [u8; 6]) -> (r: Mac)
        ensures
            r@ == mac@,
    {
        Mac { mac }
    }

    /// The reserved "none" identifier: all six bytes zero.
    pub fn from_none() -> (r: Mac)
        ensures
            r@ =~= seq![0u8, 0u8, 0u8, 0u8, 0u8, 0u8],
    {
        Mac { mac: [0u8, 0u8, 0u8, 0u8, 0u8, 0u8] }
    }

    /// The six bytes of the identifier.
    pub fn bytes(&self) -> (r: [u8; 6])
        ensures
            r@ == self@,
    {
        self.mac
    }

    /// Byte-exact equality of two identifiers.
    pub fn same(&self, other: &Mac) -> (r: bool)
        ensures
            r == (self@ =~= other@),
    {
        let r = self.mac[0] == other.mac[0] && self.mac[1] == other.mac[1] && self.mac[2]
            == other.mac[2] && self.mac[3] == other.mac[3] && self.mac[4] == other.mac[4]
            && self.mac[5] == other.mac[5];
        proof {
            if r {
                assert(self@ =~= other@);
            }
        }
        r
    }

    /// Parses identifier text: separators are stripped, then exactly twelve
    /// hex digits must remain.  Fails with code 50001 on any other stripped
    /// length and with code 50002 when a remaining byte is not a hex digit.
    pub fn from_text(s: &[u8]) -> (r: Result<Mac, RwebError>)
        ensures
            r is Ok <==> is_valid_mac_hex(strip_separators(s@)),
            r matches Ok(m) ==> m@ == mac_of_hex(strip_separators(s@)),
            r matches Err(e) ==> e.code == (if strip_separators(s@).len() != 12 {
                50001int
            } else {
                50002int
            }),
    {
        let mut stripped: Vec<u8> = Vec::new();
        let mut i: usize = 0;
        while i < s.len()
            invariant
                i <= s@.len(),
                stripped@ == strip_separators(s@.subrange(0, i as int)),
            decreases s@.len() - i,
        {
            let c = s[i];
            proof {
                assert(s@.subrange(0, i + 1).drop_last() =~= s@.subrange(0, i as int));
                assert(s@.subrange(0, i + 1).last() == s@[i as int]);
            }
            if !(c == 58 || c == 45 || c == 32 || c == 9 || c == 13 || c == 10) {
                stripped.push(c);
            }
            i = i + 1;
        }
        proof {
            assert(s@.subrange(0, s@.len() as int) =~= s@);
        }
        if stripped.len() != 12 {
            return Err(RwebError::new(50001, "mac address error"));
        }
        let mut mac = [0u8, 0u8, 0u8, 0u8, 0u8, 0u8];
        let mut j: usize = 0;
        while j < 6
            invariant
                j <= 6,
                stripped@.len() == 12,
                stripped@ == strip_separators(s@),
                forall|k: int| 0 <= k < 2 * j ==> is_hex_digit(#[trigger] stripped@[k]),
                forall|k: int| 0 <= k < j ==> mac@[k] == mac_of_hex(stripped@)[k],
            decreases 6 - j,
        {
            let hi = stripped[2 * j];
            let lo = stripped[2 * j + 1];
            let hi_ok = (48 <= hi && hi <= 57) || (97 <= hi && hi <= 102) || (65 <= hi && hi
                <= 70);
            let lo_ok = (48 <= lo && lo <= 57) || (97 <= lo && lo <= 102) || (65 <= lo && lo
                <= 70);
            if !hi_ok || !lo_ok {
                return Err(RwebError::new(50002, "mac address error"));
            }
            let hv = if 48 <= hi && hi <= 57 {
                hi - 48
            } else if 97 <= hi && hi <= 102 {
                hi - 87
            } else {
                hi - 55
            };
            let lv = if 48 <= lo && lo <= 57 {
                lo - 48
            } else if 97 <= lo && lo <= 102 {
                lo - 87
            } else {
                lo - 55
            };
            mac[j] = 16 * hv + lv;
            j = j + 1;
        }
        Ok(Mac { mac })
    }

    /// Canonical text form: twelve lower-case hex digits.
    pub fn format(&self) -> (r: Vec<u8>)
        ensures
            r@ == text_of_mac(self@),
    {
        let mut out: Vec<u8> = Vec::new();
        let mut i: usize = 0;
        while i < 6
            invariant
                i <= 6,
                out@.len() == 2 * i,
                forall|k: int| 0 <= k < 2 * i ==> out@[k] == text_of_mac(self@)[k],
            decreases 6 - i,
        {
            let b = self.mac[i];
            let hi = b / 16;
            let lo = b % 16;
            out.push(
                if hi < 10 {
                    48 + hi
                } else {
                    87 + hi
                },
            );
            out.push(
                if lo < 10 {
                    48 + lo
                } else {
                    87 + lo
                },
            );
            i = i + 1;
        }
        proof {
            assert(out@ =~= text_of_mac(self@));
        }
        out
    }
}

/// The canonical text of any six bytes is already normalized — twelve
/// lower-case hex digits with no separators — and parsing it yields the
/// same six bytes back.
pub proof fn lemma_mac_text_round_trip(b: Seq<u8>)
    requires
        b.len() == 6,
        forall|i: int| 0 <= i < 6 ==> b[i] <= 255,
    ensures
        strip_separators(text_of_mac(b)) == text_of_mac(b),
        is_valid_mac_hex(text_of_mac(b)),
        mac_of_hex(text_of_mac(b)) =~= b,
{
    let t = text_of_mac(b);
    assert forall|i: int| 0 <= i < 12 implies is_hex_digit(#[trigger] t[i]) && !is_mac_separator(
        t[i],
    ) by {
        let v = if i % 2 == 0 {
            b[i / 2] / 16
        } else {
            b[i / 2] % 16
        };
        assert(v < 16);
    }
    lemma_strip_separators_clean(t);
    assert forall|i: int| 0 <= i < 6 implies mac_of_hex(t)[i] == b[i] by {
        let hi = b[i] / 16;
        let lo = b[i] % 16;
        assert(t[2 * i] == hex_char_lower(hi));
        assert(t[2 * i + 1] == hex_char_lower(lo));
        assert(hex_val(hex_char_lower(hi)) == hi);
        assert(hex_val(hex_char_lower(lo)) == lo);
        assert(16 * (b[i] / 16) + b[i] % 16 == b[i]);
    }
}

/// Stripping separators from text that contains none leaves it unchanged.
pub proof fn lemma_strip_separators_clean(s: Seq<u8>)
    requires
        forall|i: int| 0 <= i < s.len() ==> !is_mac_separator(#[trigger] s[i]),
    ensures
        strip_separators(s) == s,
    decreases s.len(),
{
    if s.len() > 0 {
        lemma_strip_separators_clean(s.drop_last());
        assert(strip_separators(s) =~= s);
    } else {
        assert(strip_separators(s) =~= s);
    }
}

} // verus!
