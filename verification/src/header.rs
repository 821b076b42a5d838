//! Request preamble: the first line's three tokens plus a header mapping.
//!
//! Deserialization splits the buffer on carriage returns and line feeds, takes
//! the first non-empty line as `method SP uri SP version`, and reads every
//! later line as `key: value`, split at the first colon, key and value
//! trimmed.  The first line is echoed into the mapping as a `method -> uri`
//! entry, and later lines whose key equals the method are dropped.
//! Serialization writes the first line, each entry as `key: value`, and a
//! final blank line, all terminated by CRLF.

use vstd::prelude::*;

use crate::text::{
    bytes_eq, delim_of, first_colon, first_colon_spec, split_bytes, split_on, trim, trim_bytes,
    views_of,
};
use crate::RwebError;

verus! {

/// A parsed request preamble: three first-line tokens and the header
/// mapping, kept as a list of key/value pairs with pairwise-distinct keys.
#[derive(Debug)]
pub struct Header {
    pub method: Vec<u8>,
    pub uri: Vec<u8>,
    pub version: Vec<u8>,
    pub headers: Vec<(Vec<u8>, Vec<u8>)>,
}

/// The views of a sequence of key/value byte-vector pairs.
pub open spec fn entry_views(hs: Seq<(Vec<u8>, Vec<u8>)>) -> Seq<(Seq<u8>, Seq<u8>)> {
    hs.map_values(|p: (Vec<u8>, Vec<u8>)| (p.0@, p.1@))
}

/// The value of the first entry with the given key, if any.
pub open spec fn lookup(es: Seq<(Seq<u8>, Seq<u8>)>, k: Seq<u8>) -> Option<Seq<u8>>
    decreases es.len(),
{
    if es.len() == 0 {
        None
    } else if es[0].0 == k {
        Some(es[0].1)
    } else {
        lookup(es.drop_first(), k)
    }
}

/// Replaces the value of the first entry with the given key, or appends a
/// new entry when the key is absent.
pub open spec fn upsert(es: Seq<(Seq<u8>, Seq<u8>)>, k: Seq<u8>, v: Seq<u8>) -> Seq<
    (Seq<u8>, Seq<u8>),
>
    decreases es.len(),
{
    if es.len() == 0 {
        seq![(k, v)]
    } else if es[0].0 == k {
        seq![(k, v)].add(es.drop_first())
    } else {
        seq![es[0]].add(upsert(es.drop_first(), k, v))
    }
}

/// Drops the first entry with the given key, if any.
pub open spec fn remove_key(es: Seq<(Seq<u8>, Seq<u8>)>, k: Seq<u8>) -> Seq<(Seq<u8>, Seq<u8>)>
    decreases es.len(),
{
    if es.len() == 0 {
        es
    } else if es[0].0 == k {
        es.drop_first()
    } else {
        seq![es[0]].add(remove_key(es.drop_first(), k))
    }
}

/// Keys are pairwise distinct.
pub open spec fn unique_keys(es: Seq<(Seq<u8>, Seq<u8>)>) -> bool {
    forall|i: int, j: int| 0 <= i < j < es.len() ==> (#[trigger] es[i]).0 != (#[trigger] es[j]).0
}

/// Wire form of the header mapping: one `key: value` CRLF line per entry.
pub open spec fn serialize_entries(es: Seq<(Seq<u8>, Seq<u8>)>) -> Seq<u8>
    decreases es.len(),
{
    if es.len() == 0 {
        Seq::empty()
    } else {
        es[0].0.add(seq![58u8, 32u8]).add(es[0].1).add(seq![13u8, 10u8]).add(
            serialize_entries(es.drop_first()),
        )
    }
}

/// Wire form of a whole preamble.
pub open spec fn spec_serialize(
    m: Seq<u8>,
    u: Seq<u8>,
    v: Seq<u8>,
    es: Seq<(Seq<u8>, Seq<u8>)>,
) -> Seq<u8> {
    m.add(seq![32u8]).add(u).add(seq![32u8]).add(v).add(seq![13u8, 10u8]).add(
        serialize_entries(es),
    ).add(seq![13u8, 10u8])
}

/// The abstract result of parsing a preamble.
pub struct Preamble {
    pub method: Seq<u8>,
    pub uri: Seq<u8>,
    pub version: Seq<u8>,
    pub entries: Seq<(Seq<u8>, Seq<u8>)>,
}

/// Index of the first non-empty line at or after position `i`.
pub open spec fn first_nonempty(ls: Seq<Seq<u8>>, i: int) -> Option<int>
    decreases ls.len() - i,
{
    if i < 0 || i >= ls.len() {
        None
    } else if ls[i].len() > 0 {
        Some(i)
    } else {
        first_nonempty(ls, i + 1)
    }
}

/// The three tokens of the request line: it must split on single spaces
/// into at least three parts, the first three all non-empty.
pub open spec fn parse_request_line(l: Seq<u8>) -> Option<(Seq<u8>, Seq<u8>, Seq<u8>)> {
    let parts = split_on(l, delim_of(true));
    if parts.len() > 2 && parts[0].len() > 0 && parts[1].len() > 0 && parts[2].len() > 0 {
        Some((parts[0], parts[1], parts[2]))
    } else {
        None
    }
}

/// Folds the header lines from position `i` on into the mapping: lines
/// without a colon are skipped, keys and values are trimmed, and a line
/// whose key equals the method is dropped.
pub open spec fn accum_headers(
    m: Seq<u8>,
    es: Seq<(Seq<u8>, Seq<u8>)>,
    ls: Seq<Seq<u8>>,
    i: int,
) -> Seq<(Seq<u8>, Seq<u8>)>
    decreases ls.len() - i,
{
    if i < 0 || i >= ls.len() {
        es
    } else {
        let l = ls[i];
        match first_colon_spec(l) {
            None => accum_headers(m, es, ls, i + 1),
            Some(j) => {
                let k = trim(l.take(j));
                let v = trim(l.skip(j + 1));
                if k == m {
                    accum_headers(m, es, ls, i + 1)
                } else {
                    accum_headers(m, upsert(es, k, v), ls, i + 1)
                }
            },
        }
    }
}

/// What parsing a preamble buffer yields, if anything.
pub open spec fn spec_parse(s: Seq<u8>) -> Option<Preamble> {
    let ls = split_on(s, delim_of(false));
    match first_nonempty(ls, 0) {
        None => None,
        Some(i) => match parse_request_line(ls[i]) {
            None => None,
            Some(t) => Some(
                Preamble {
                    method: t.0,
                    uri: t.1,
                    version: t.2,
                    entries: accum_headers(t.0, seq![(t.0, trim(t.1))], ls, i + 1),
                },
            ),
        },
    }
}

impl Header {
    /// The header mapping as a sequence of key/value byte sequences.
    pub open spec fn entries(&self) -> Seq<(Seq<u8>, Seq<u8>)> {
        entry_views(self.headers@)
    }

    /// Well-formedness: the mapping holds at most one entry per key.
    pub open spec fn wf(&self) -> bool {
        unique_keys(self.entries())
    }

    /// A preamble with the given first-line tokens and no header entries.
    pub fn new(method: Vec<u8>, uri: Vec<u8>, version: Vec<u8>) -> (r: Header)
        ensures
            r.method@ == method@,
            r.uri@ == uri@,
            r.version@ == version@,
            r.entries() =~= Seq::<(Seq<u8>, Seq<u8>)>::empty(),
            r.wf(),
    {
        let r = Header { method, uri, version, headers: Vec::new() };
        proof {
            assert(r.entries() =~= Seq::<(Seq<u8>, Seq<u8>)>::empty());
        }
        r
    }

    /// The value of the given header, if present.
    pub fn get<'a>(&'a self, key: &[u8]) -> (r: Option<&'a Vec<u8>>)
        ensures
            match r {
                Some(v) => lookup(self.entries(), key@) == Some(v@),
                None => lookup(self.entries(), key@) is None,
            },
    {
        let mut i: usize = 0;
        proof {
            assert(self.entries().skip(0) =~= self.entries());
        }
        while i < self.headers.len()
            invariant
                i <= self.headers@.len(),
                lookup(self.entries(), key@) == lookup(self.entries().skip(i as int), key@),
            decreases self.headers@.len() - i,
        {
            proof {
                assert(self.entries().skip(i as int)[0] == self.entries()[i as int]);
                assert(self.entries().skip(i as int).drop_first() =~= self.entries().skip(i + 1));
            }
            if bytes_eq(self.headers[i].0.as_slice(), key) {
                return Some(&self.headers[i].1);
            }
            i = i + 1;
        }
        None
    }

    /// Sets the header to the given value, replacing an existing entry of
    /// the same key or appending a new one.
    pub fn set(&mut self, key: Vec<u8>, value: Vec<u8>)
        ensures
            final(self).entries() == upsert(old(self).entries(), key@, value@),
            final(self).method@ == old(self).method@,
            final(self).uri@ == old(self).uri@,
            final(self).version@ == old(self).version@,
            old(self).wf() ==> final(self).wf(),
    {
        let mut i: usize = 0;
        while i < self.headers.len()
            invariant
                i <= self.headers@.len(),
                self == old(self),
                forall|k: int| 0 <= k < i ==> (#[trigger] self.entries()[k]).0 != key@,
            decreases self.headers@.len() - i,
        {
            if bytes_eq(self.headers[i].0.as_slice(), key.as_slice()) {
                proof {
                    if old(self).wf() {
                        lemma_upsert_unique(old(self).entries(), key@, value@);
                    }
                    lemma_upsert_at(self.entries(), key@, value@, i as int);
                    assert(entry_views(self.headers@.update(i as int, (key, value)))
                        =~~= self.entries().update(i as int, (key@, value@)));
                }
                self.headers[i] = (key, value);
                return ;
            }
            i = i + 1;
        }
        proof {
            if old(self).wf() {
                lemma_upsert_unique(old(self).entries(), key@, value@);
            }
            lemma_upsert_absent(self.entries(), key@, value@);
            assert(entry_views(self.headers@.push((key, value))) =~~= self.entries().push(
                (key@, value@),
            ));
        }
        self.headers.push((key, value));
    }

    /// Inserts a header; same behaviour as `set`.
    pub fn insert(&mut self, key: Vec<u8>, value: Vec<u8>)
        ensures
            final(self).entries() == upsert(old(self).entries(), key@, value@),
            final(self).method@ == old(self).method@,
            final(self).uri@ == old(self).uri@,
            final(self).version@ == old(self).version@,
            old(self).wf() ==> final(self).wf(),
    {
        self.set(key, value);
    }

    /// Removes the header with the given key, returning its value.
    pub fn remove(&mut self, key: &[u8]) -> (r: Option<Vec<u8>>)
        ensures
            final(self).entries() == remove_key(old(self).entries(), key@),
            final(self).method@ == old(self).method@,
            final(self).uri@ == old(self).uri@,
            final(self).version@ == old(self).version@,
            old(self).wf() ==> final(self).wf(),
            match r {
                Some(v) => lookup(old(self).entries(), key@) == Some(v@),
                None => lookup(old(self).entries(), key@) is None,
            },
    {
        let mut i: usize = 0;
        while i < self.headers.len()
            invariant
                i <= self.headers@.len(),
                self == old(self),
                forall|k: int| 0 <= k < i ==> (#[trigger] self.entries()[k]).0 != key@,
            decreases self.headers@.len() - i,
        {
            if bytes_eq(self.headers[i].0.as_slice(), key) {
                proof {
                    if old(self).wf() {
                        lemma_remove_key_unique(old(self).entries(), key@);
                    }
                    lemma_remove_key_at(self.entries(), key@, i as int);
                    lemma_lookup_at(self.entries(), key@, i as int);
                    assert(entry_views(self.headers@.remove(i as int)) =~~= self.entries().remove(
                        i as int,
                    ));
                }
                let removed = self.headers.remove(i);
                return Some(removed.1);
            }
            i = i + 1;
        }
        proof {
            lemma_remove_key_all_absent(self.entries(), key@);
            lemma_lookup_all_absent(self.entries(), key@);
        }
        None
    }

    /// Wire form of the preamble.
    pub fn serialize(&self) -> (r: Vec<u8>)
        ensures
            r@ == spec_serialize(self.method@, self.uri@, self.version@, self.entries()),
    {
        let mut out: Vec<u8> = Vec::new();
        out.extend_from_slice(self.method.as_slice());
        out.push(32);
        out.extend_from_slice(self.uri.as_slice());
        out.push(32);
        out.extend_from_slice(self.version.as_slice());
        out.push(13);
        out.push(10);
        let ghost first_line = out@;
        let mut i: usize = 0;
        proof {
            assert(self.entries().skip(0) =~= self.entries());
        }
        while i < self.headers.len()
            invariant
                i <= self.headers@.len(),
                first_line.add(serialize_entries(self.entries())) == out@.add(
                    serialize_entries(self.entries().skip(i as int)),
                ),
            decreases self.headers@.len() - i,
        {
            proof {
                assert(self.entries().skip(i as int)[0] == self.entries()[i as int]);
                assert(self.entries().skip(i as int).drop_first() =~= self.entries().skip(i + 1));
            }
            out.extend_from_slice(self.headers[i].0.as_slice());
            out.push(58);
            out.push(32);
            out.extend_from_slice(self.headers[i].1.as_slice());
            out.push(13);
            out.push(10);
            proof {
                assert(first_line.add(serialize_entries(self.entries())) =~= out@.add(
                    serialize_entries(self.entries().skip(i + 1)),
                ));
            }
            i = i + 1;
        }
        proof {
            assert(self.entries().skip(self.entries().len() as int)
                =~= Seq::<(Seq<u8>, Seq<u8>)>::empty());
            assert(out@ =~= first_line.add(serialize_entries(self.entries())));
        }
        out.push(13);
        out.push(10);
        proof {
            assert(out@ =~= spec_serialize(
                self.method@,
                self.uri@,
                self.version@,
                self.entries(),
            ));
        }
        out
    }

    /// Parses a preamble buffer.  Fails with code 2400 exactly when no line
    /// holds three non-empty space-separated tokens before the headers.
    pub fn parse(buf: &[u8]) -> (r: Result<Header, RwebError>)
        ensures
            r is Ok <==> spec_parse(buf@) is Some,
            r matches Ok(h) ==> spec_parse(buf@) matches Some(p) && h.method@ == p.method
                && h.uri@ == p.uri && h.version@ == p.version && h.entries() == p.entries
                && h.wf(),
            r matches Err(e) ==> e.code == 2400,
    {
        let ghost ls = split_on(buf@, delim_of(false));
        let lines = split_bytes(buf, false);
        let mut idx: usize = 0;
        while idx < lines.len() && lines[idx].len() == 0
            invariant
                idx <= lines@.len(),
                views_of(lines@) == ls,
                first_nonempty(ls, 0) == first_nonempty(ls, idx as int),
            decreases lines@.len() - idx,
        {
            idx = idx + 1;
        }
        if idx == lines.len() {
            return Err(RwebError::new(2400, "header error"));
        }
        let ghost line_v = ls[idx as int];
        let mut parts = split_bytes(lines[idx].as_slice(), true);
        if !(parts.len() > 2 && parts[0].len() > 0 && parts[1].len() > 0 && parts[2].len() > 0) {
            return Err(RwebError::new(2400, "header error"));
        }
        let ghost parts_v = split_on(line_v, delim_of(true));
        let method = parts.remove(0);
        let uri = parts.remove(0);
        let version = parts.remove(0);
        proof {
            assert(method@ == parts_v[0]);
            assert(uri@ == parts_v[1]);
            assert(version@ == parts_v[2]);
        }
        let mkey = vstd::slice::slice_to_vec(method.as_slice());
        let mkey2 = vstd::slice::slice_to_vec(method.as_slice());
        let trimmed_uri = trim_bytes(uri.as_slice());
        let mut h = Header { method, uri, version, headers: Vec::new() };
        let ghost init_es = seq![(h.method@, trim(h.uri@))];
        let ghost m = h.method@;
        proof {
            assert(entry_views(h.headers@.push((mkey2, trimmed_uri))) =~~= init_es);
        }
        h.headers.push((mkey2, trimmed_uri));
        let mut j: usize = idx + 1;
        while j < lines.len()
            invariant
                idx < j <= lines@.len(),
                views_of(lines@) == ls,
                mkey@ == m,
                h.method@ == m,
                h.uri@ == parts_v[1],
                h.version@ == parts_v[2],
                h.wf(),
                accum_headers(m, h.entries(), ls, j as int) == accum_headers(
                    m,
                    init_es,
                    ls,
                    idx + 1,
                ),
            decreases lines@.len() - j,
        {
            let line = &lines[j];
            proof {
                assert(line@ == ls[j as int]);
            }
            match first_colon(line.as_slice()) {
                None => {},
                Some(c) => {
                    let llen = line.len();
                    let key = trim_bytes(vstd::slice::slice_subrange(line.as_slice(), 0, c));
                    let value = trim_bytes(
                        vstd::slice::slice_subrange(line.as_slice(), c + 1, llen),
                    );
                    proof {
                        assert(key@ == trim(ls[j as int].take(c as int)));
                        assert(value@ == trim(ls[j as int].skip(c + 1)));
                    }
                    if !bytes_eq(key.as_slice(), mkey.as_slice()) {
                        h.set(key, value);
                    }
                },
            }
            j = j + 1;
        }
        proof {
            assert(accum_headers(m, h.entries(), ls, lines@.len() as int) == h.entries());
        }
        Ok(h)
    }
}

/// A first-line token that serializes unambiguously: free of spaces and
/// line delimiters.
pub open spec fn token_clean(t: Seq<u8>) -> bool {
    forall|i: int| 0 <= i < t.len() ==> #[trigger] t[i] != 32 && t[i] != 13 && t[i] != 10
}

/// Serializing a preamble whose three first-line tokens are non-empty (and
/// free of spaces and line delimiters) and parsing the result gives back
/// the same method, uri and version.
pub proof fn lemma_preamble_round_trip(
    m: Seq<u8>,
    u: Seq<u8>,
    v: Seq<u8>,
    es: Seq<(Seq<u8>, Seq<u8>)>,
)
    requires
        m.len() > 0,
        u.len() > 0,
        v.len() > 0,
        token_clean(m),
        token_clean(u),
        token_clean(v),
    ensures
        spec_parse(spec_serialize(m, u, v, es)) matches Some(p) && p.method == m && p.uri == u
            && p.version == v,
{
    let s = spec_serialize(m, u, v, es);
    let reqline = m.add(seq![32u8]).add(u).add(seq![32u8]).add(v);
    let tail = seq![10u8].add(serialize_entries(es)).add(seq![13u8, 10u8]);
    assert(s =~= reqline.add(seq![13u8]).add(tail));
    let line_d = delim_of(false);
    let space_d = delim_of(true);
    assert forall|i: int| 0 <= i < reqline.len() implies !line_d(#[trigger] reqline[i]) by {
        if i < m.len() {
            assert(reqline[i] == m[i]);
        } else if i == m.len() {
            assert(reqline[i] == 32);
        } else if i < m.len() + 1 + u.len() {
            assert(reqline[i] == u[i - m.len() - 1]);
        } else if i == m.len() + 1 + u.len() {
            assert(reqline[i] == 32);
        } else {
            assert(reqline[i] == v[i - m.len() - u.len() - 2]);
        }
    }
    crate::text::lemma_split_on_prefix(reqline, 13, tail, line_d);
    let ls = split_on(s, line_d);
    assert(ls == seq![reqline].add(split_on(tail, line_d)));
    assert(ls[0] == reqline);
    assert(reqline.len() > 0);
    assert(first_nonempty(ls, 0) == Some(0int));
    let rest1 = u.add(seq![32u8]).add(v);
    assert(reqline =~= m.add(seq![32u8]).add(rest1));
    assert forall|i: int| 0 <= i < m.len() implies !space_d(#[trigger] m[i]) by {}
    assert forall|i: int| 0 <= i < u.len() implies !space_d(#[trigger] u[i]) by {}
    assert forall|i: int| 0 <= i < v.len() implies !space_d(#[trigger] v[i]) by {}
    crate::text::lemma_split_on_prefix(m, 32, rest1, space_d);
    crate::text::lemma_split_on_prefix(u, 32, v, space_d);
    crate::text::lemma_split_on_clean(v, space_d);
    let parts = split_on(reqline, space_d);
    assert(parts =~~= seq![m].add(seq![u].add(seq![v])));
    assert(parts.len() == 3);
    assert(parts[0] == m && parts[1] == u && parts[2] == v);
    assert(parse_request_line(reqline) == Some((m, u, v)));
}

/// Parsing never yields a preamble with an empty method, uri or version:
/// on such input it fails instead.
pub proof fn lemma_parse_tokens_nonempty(s: Seq<u8>)
    ensures
        spec_parse(s) matches Some(p) ==> p.method.len() > 0 && p.uri.len() > 0
            && p.version.len() > 0,
{
}

proof fn lemma_lookup_at(es: Seq<(Seq<u8>, Seq<u8>)>, k: Seq<u8>, i: int)
    requires
        0 <= i < es.len(),
        es[i].0 == k,
        forall|j: int| 0 <= j < i ==> (#[trigger] es[j]).0 != k,
    ensures
        lookup(es, k) == Some(es[i].1),
    decreases i,
{
    if i > 0 {
        lemma_lookup_at(es.drop_first(), k, i - 1);
    }
}

proof fn lemma_lookup_all_absent(es: Seq<(Seq<u8>, Seq<u8>)>, k: Seq<u8>)
    requires
        forall|j: int| 0 <= j < es.len() ==> (#[trigger] es[j]).0 != k,
    ensures
        lookup(es, k) is None,
    decreases es.len(),
{
    if es.len() > 0 {
        lemma_lookup_all_absent(es.drop_first(), k);
    }
}

proof fn lemma_upsert_at(es: Seq<(Seq<u8>, Seq<u8>)>, k: Seq<u8>, v: Seq<u8>, i: int)
    requires
        0 <= i < es.len(),
        es[i].0 == k,
        forall|j: int| 0 <= j < i ==> (#[trigger] es[j]).0 != k,
    ensures
        upsert(es, k, v) == es.update(i, (k, v)),
    decreases i,
{
    if i == 0 {
        assert(upsert(es, k, v) =~~= es.update(0, (k, v)));
    } else {
        lemma_upsert_at(es.drop_first(), k, v, i - 1);
        assert(upsert(es, k, v) =~~= es.update(i, (k, v)));
    }
}

proof fn lemma_upsert_absent(es: Seq<(Seq<u8>, Seq<u8>)>, k: Seq<u8>, v: Seq<u8>)
    requires
        forall|j: int| 0 <= j < es.len() ==> (#[trigger] es[j]).0 != k,
    ensures
        upsert(es, k, v) == es.push((k, v)),
    decreases es.len(),
{
    if es.len() == 0 {
        assert(upsert(es, k, v) =~~= es.push((k, v)));
    } else {
        lemma_upsert_absent(es.drop_first(), k, v);
        assert(upsert(es, k, v) =~~= es.push((k, v)));
    }
}

proof fn lemma_remove_key_at(es: Seq<(Seq<u8>, Seq<u8>)>, k: Seq<u8>, i: int)
    requires
        0 <= i < es.len(),
        es[i].0 == k,
        forall|j: int| 0 <= j < i ==> (#[trigger] es[j]).0 != k,
    ensures
        remove_key(es, k) == es.remove(i),
    decreases i,
{
    if i == 0 {
        assert(remove_key(es, k) =~~= es.remove(0));
    } else {
        lemma_remove_key_at(es.drop_first(), k, i - 1);
        assert(remove_key(es, k) =~~= es.remove(i));
    }
}

proof fn lemma_remove_key_all_absent(es: Seq<(Seq<u8>, Seq<u8>)>, k: Seq<u8>)
    requires
        forall|j: int| 0 <= j < es.len() ==> (#[trigger] es[j]).0 != k,
    ensures
        remove_key(es, k) == es,
    decreases es.len(),
{
    if es.len() > 0 {
        lemma_remove_key_all_absent(es.drop_first(), k);
        assert(remove_key(es, k) =~~= es);
    } else {
        assert(remove_key(es, k) =~~= es);
    }
}

/// Replacing or appending an entry keeps keys pairwise distinct.
proof fn lemma_upsert_unique(es: Seq<(Seq<u8>, Seq<u8>)>, k: Seq<u8>, v: Seq<u8>)
    requires
        unique_keys(es),
    ensures
        unique_keys(upsert(es, k, v)),
    decreases es.len(),
{
    if es.len() == 0 {
    } else if es[0].0 == k {
        let r = upsert(es, k, v);
        assert forall|i: int, j: int| 0 <= i < j < r.len() implies (#[trigger] r[i]).0
            != (#[trigger] r[j]).0 by {
            assert(es[i] == if i == 0 {
                es[0]
            } else {
                es[i]
            });
        }
    } else {
        lemma_upsert_unique(es.drop_first(), k, v);
        let r = upsert(es, k, v);
        let rr = upsert(es.drop_first(), k, v);
        assert forall|i: int, j: int| 0 <= i < j < r.len() implies (#[trigger] r[i]).0
            != (#[trigger] r[j]).0 by {
            if i == 0 {
                lemma_upsert_key_membership(es.drop_first(), k, v, j - 1);
            } else {
                assert(r[i] == rr[i - 1]);
                assert(r[j] == rr[j - 1]);
            }
        }
    }
}

/// Every key of an upserted mapping is the new key or one already present.
proof fn lemma_upsert_key_membership(es: Seq<(Seq<u8>, Seq<u8>)>, k: Seq<u8>, v: Seq<u8>, i: int)
    requires
        0 <= i < upsert(es, k, v).len(),
    ensures
        upsert(es, k, v)[i].0 == k || exists|j: int|
            0 <= j < es.len() && (#[trigger] es[j]).0 == upsert(es, k, v)[i].0,
    decreases es.len(),
{
    if es.len() == 0 {
    } else if es[0].0 == k {
        if i > 0 {
            assert(es[i].0 == upsert(es, k, v)[i].0);
        }
    } else {
        if i > 0 {
            lemma_upsert_key_membership(es.drop_first(), k, v, i - 1);
            if upsert(es, k, v)[i].0 != k {
                let j = choose|j: int|
                    0 <= j < es.drop_first().len() && (#[trigger] es.drop_first()[j]).0 == upsert(
                        es.drop_first(),
                        k,
                        v,
                    )[i - 1].0;
                assert(es[j + 1].0 == upsert(es, k, v)[i].0);
            }
        } else {
            assert(es[0].0 == upsert(es, k, v)[0].0);
        }
    }
}

/// Removing an entry keeps keys pairwise distinct.
proof fn lemma_remove_key_unique(es: Seq<(Seq<u8>, Seq<u8>)>, k: Seq<u8>)
    requires
        unique_keys(es),
    ensures
        unique_keys(remove_key(es, k)),
    decreases es.len(),
{
    if es.len() == 0 {
    } else if es[0].0 == k {
    } else {
        lemma_remove_key_unique(es.drop_first(), k);
        let r = remove_key(es, k);
        let rr = remove_key(es.drop_first(), k);
        assert forall|i: int, j: int| 0 <= i < j < r.len() implies (#[trigger] r[i]).0
            != (#[trigger] r[j]).0 by {
            if i == 0 {
                lemma_remove_key_membership(es.drop_first(), k, j - 1);
            } else {
                assert(r[i] == rr[i - 1]);
                assert(r[j] == rr[j - 1]);
            }
        }
    }
}

/// Every key left after a removal was already present.
proof fn lemma_remove_key_membership(es: Seq<(Seq<u8>, Seq<u8>)>, k: Seq<u8>, i: int)
    requires
        0 <= i < remove_key(es, k).len(),
    ensures
        exists|j: int| 0 <= j < es.len() && (#[trigger] es[j]).0 == remove_key(es, k)[i].0,
    decreases es.len(),
{
    if es.len() == 0 {
    } else if es[0].0 == k {
        assert(es[i + 1].0 == remove_key(es, k)[i].0);
    } else {
        if i > 0 {
            lemma_remove_key_membership(es.drop_first(), k, i - 1);
            let j = choose|j: int|
                0 <= j < es.drop_first().len() && (#[trigger] es.drop_first()[j]).0 == remove_key(
                    es.drop_first(),
                    k,
                )[i - 1].0;
            assert(es[j + 1].0 == remove_key(es, k)[i].0);
        } else {
            assert(es[0].0 == remove_key(es, k)[0].0);
        }
    }
}

} // verus!
