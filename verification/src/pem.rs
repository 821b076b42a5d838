//! Extraction of the certificate blocks out of PEM text: every run of
//! lines from a begin marker through its end marker, markers included,
//! re-joined with single line feeds.

use vstd::prelude::*;

use crate::text::{byte_delim, bytes_eq, split_byte, split_on, views_of};

verus! {

/// The line that opens a certificate block.
pub open spec fn begin_marker() -> Seq<u8> {
    seq![
        45u8, 45u8, 45u8, 45u8, 45u8, 66u8, 69u8, 71u8, 73u8, 78u8, 32u8, 67u8, 69u8, 82u8, 84u8,
        73u8, 70u8, 73u8, 67u8, 65u8, 84u8, 69u8, 45u8, 45u8, 45u8, 45u8, 45u8,
    ]
}

/// The line that closes a certificate block.
pub open spec fn end_marker() -> Seq<u8> {
    seq![
        45u8, 45u8, 45u8, 45u8, 45u8, 69u8, 78u8, 68u8, 32u8, 67u8, 69u8, 82u8, 84u8, 73u8, 70u8,
        73u8, 67u8, 65u8, 84u8, 69u8, 45u8, 45u8, 45u8, 45u8, 45u8,
    ]
}

/// A line with its optional trailing carriage return removed.
pub open spec fn strip_cr(l: Seq<u8>) -> Seq<u8> {
    if l.len() > 0 && l.last() == 13 {
        l.drop_last()
    } else {
        l
    }
}

/// Whether a line starts with a marker.
pub open spec fn begins_with(l: Seq<u8>, p: Seq<u8>) -> bool {
    p.len() <= l.len() && l.take(p.len() as int) == p
}

/// Folds the lines from position `i` on into the extracted blocks: a begin
/// marker restarts the current block, an end marker inside a block emits
/// the block with the marker appended, and other lines accumulate while a
/// block is open.
pub open spec fn pem_accum(
    ls: Seq<Seq<u8>>,
    i: int,
    in_cert: bool,
    cur: Seq<u8>,
    out: Seq<Seq<u8>>,
) -> Seq<Seq<u8>>
    decreases ls.len() - i,
{
    if i < 0 || i >= ls.len() {
        out
    } else {
        let l = strip_cr(ls[i]);
        if begins_with(l, begin_marker()) {
            pem_accum(ls, i + 1, true, l.add(seq![10u8]), out)
        } else if begins_with(l, end_marker()) {
            if in_cert {
                pem_accum(ls, i + 1, false, cur.add(l), out.push(cur.add(l)))
            } else {
                pem_accum(ls, i + 1, false, cur, out)
            }
        } else if in_cert {
            pem_accum(ls, i + 1, true, cur.add(l).add(seq![10u8]), out)
        } else {
            pem_accum(ls, i + 1, in_cert, cur, out)
        }
    }
}

/// The certificate blocks of PEM text.
pub open spec fn spec_extract_certificates(s: Seq<u8>) -> Seq<Seq<u8>> {
    pem_accum(split_on(s, byte_delim(10)), 0, false, Seq::empty(), Seq::empty())
}

fn begin_marker_bytes() -> (r: Vec<u8>)
    ensures
        r@ == begin_marker(),
{
    let r: Vec<u8> = vec![
        45u8, 45u8, 45u8, 45u8, 45u8, 66u8, 69u8, 71u8, 73u8, 78u8, 32u8, 67u8, 69u8, 82u8, 84u8,
        73u8, 70u8, 73u8, 67u8, 65u8, 84u8, 69u8, 45u8, 45u8, 45u8, 45u8, 45u8,
    ];
    proof {
        assert(r@ =~= begin_marker());
    }
    r
}

fn end_marker_bytes() -> (r: Vec<u8>)
    ensures
        r@ == end_marker(),
{
    let r: Vec<u8> = vec![
        45u8, 45u8, 45u8, 45u8, 45u8, 69u8, 78u8, 68u8, 32u8, 67u8, 69u8, 82u8, 84u8, 73u8, 70u8,
        73u8, 67u8, 65u8, 84u8, 69u8, 45u8, 45u8, 45u8, 45u8, 45u8,
    ];
    proof {
        assert(r@ =~= end_marker());
    }
    r
}

/// Whether a line starts with a marker.
fn begins_with_bytes(l: &[u8], p: &[u8]) -> (r: bool)
    ensures
        r == begins_with(l@, p@),
{
    if p.len() > l.len() {
        return false;
    }
    bytes_eq(vstd::slice::slice_subrange(l, 0, p.len()), p)
}

/// The certificate blocks of PEM text, in order: each runs from its begin
/// line through its end line, joined by single line feeds.
pub fn extract_full_pem_certificates(pem: &[u8]) -> (r: Vec<Vec<u8>>)
    ensures
        views_of(r@) == spec_extract_certificates(pem@),
{
    let ghost ls = split_on(pem@, byte_delim(10));
    let lines = split_byte(pem, 10);
    let begin = begin_marker_bytes();
    let end = end_marker_bytes();
    let mut out: Vec<Vec<u8>> = Vec::new();
    let mut cur: Vec<u8> = Vec::new();
    let mut in_cert: bool = false;
    let mut i: usize = 0;
    proof {
        assert(views_of(out@) =~~= Seq::<Seq<u8>>::empty());
        assert(cur@ =~= Seq::<u8>::empty());
    }
    while i < lines.len()
        invariant
            i <= lines@.len(),
            views_of(lines@) == ls,
            begin@ == begin_marker(),
            end@ == end_marker(),
            pem_accum(ls, i as int, in_cert, cur@, views_of(out@)) == spec_extract_certificates(
                pem@,
            ),
        decreases lines@.len() - i,
    {
        let line = &lines[i];
        proof {
            assert(line@ == ls[i as int]);
        }
        let n = line.len();
        let l: &[u8] = if n > 0 && line[n - 1] == 13 {
            vstd::slice::slice_subrange(line.as_slice(), 0, n - 1)
        } else {
            line.as_slice()
        };
        proof {
            assert(l@ == strip_cr(ls[i as int]));
        }
        let ghost cur0 = cur@;
        if begins_with_bytes(l, begin.as_slice()) {
            in_cert = true;
            cur = Vec::new();
            cur.extend_from_slice(l);
            cur.push(10);
            proof {
                assert(cur@ =~= strip_cr(ls[i as int]).add(seq![10u8]));
            }
        } else if begins_with_bytes(l, end.as_slice()) {
            if in_cert {
                cur.extend_from_slice(l);
                let emitted = vstd::slice::slice_to_vec(cur.as_slice());
                proof {
                    assert(cur@ =~= cur0.add(l@));
                    assert(views_of(out@.push(emitted)) =~~= views_of(out@).push(emitted@));
                }
                out.push(emitted);
            }
            in_cert = false;
        } else if in_cert {
            cur.extend_from_slice(l);
            cur.push(10);
            proof {
                assert(cur@ =~= cur0.add(strip_cr(ls[i as int])).add(seq![10u8]));
            }
        }
        i = i + 1;
    }
    proof {
        assert(pem_accum(ls, lines@.len() as int, in_cert, cur@, views_of(out@)) == views_of(
            out@,
        ));
    }
    out
}

} // verus!
