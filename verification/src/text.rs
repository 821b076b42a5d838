//! Byte-level text helpers shared by the preamble codec: splitting a buffer
//! into segments on delimiter bytes, trimming whitespace, and locating the
//! first colon of a header line.

use vstd::prelude::*;

verus! {

/// The views of a sequence of byte vectors.
pub open spec fn views_of(v: Seq<Vec<u8>>) -> Seq<Seq<u8>> {
    v.map_values(|x: Vec<u8>| x@)
}

/// Splits a byte sequence on every delimiter byte; empty segments are kept,
/// so the result always holds at least one segment.
pub open spec fn split_on(s: Seq<u8>, d: spec_fn(u8) -> bool) -> Seq<Seq<u8>>
    decreases s.len(),
{
    if s.len() == 0 {
        seq![Seq::<u8>::empty()]
    } else if d(s[0]) {
        seq![Seq::<u8>::empty()].add(split_on(s.drop_first(), d))
    } else {
        let rest = split_on(s.drop_first(), d);
        seq![seq![s[0]].add(rest[0])].add(rest.drop_first())
    }
}

/// Extends the first segment of a split on the left.
pub open spec fn prepend_first(p: Seq<u8>, segs: Seq<Seq<u8>>) -> Seq<Seq<u8>> {
    seq![p.add(segs[0])].add(segs.drop_first())
}

pub proof fn lemma_split_on_len(s: Seq<u8>, d: spec_fn(u8) -> bool)
    ensures
        split_on(s, d).len() >= 1,
    decreases s.len(),
{
    if s.len() > 0 {
        lemma_split_on_len(s.drop_first(), d);
    }
}

/// Splitting a delimiter-free sequence yields that sequence alone.
pub proof fn lemma_split_on_clean(s: Seq<u8>, d: spec_fn(u8) -> bool)
    requires
        forall|i: int| 0 <= i < s.len() ==> !d(#[trigger] s[i]),
    ensures
        split_on(s, d) == seq![s],
    decreases s.len(),
{
    if s.len() == 0 {
        assert(split_on(s, d) =~~= seq![s]);
    } else {
        lemma_split_on_clean(s.drop_first(), d);
        assert(split_on(s, d) =~~= seq![s]);
    }
}

/// A delimiter-free prefix followed by a delimiter splits off as its own
/// first segment.
pub proof fn lemma_split_on_prefix(a: Seq<u8>, c: u8, b: Seq<u8>, d: spec_fn(u8) -> bool)
    requires
        forall|i: int| 0 <= i < a.len() ==> !d(#[trigger] a[i]),
        d(c),
    ensures
        split_on(a.add(seq![c]).add(b), d) == seq![a].add(split_on(b, d)),
    decreases a.len(),
{
    let s = a.add(seq![c]).add(b);
    if a.len() == 0 {
        assert(s[0] == c);
        assert(s.drop_first() =~= b);
        assert(split_on(s, d) =~~= seq![a].add(split_on(b, d)));
    } else {
        assert(s[0] == a[0]);
        assert(s.drop_first() =~= a.drop_first().add(seq![c]).add(b));
        lemma_split_on_prefix(a.drop_first(), c, b, d);
        lemma_split_on_len(b, d);
        let rest = split_on(s.drop_first(), d);
        assert(rest[0] == a.drop_first());
        assert(seq![s[0]].add(rest[0]) =~= a);
        assert(rest.drop_first() =~~= split_on(b, d));
        assert(split_on(s, d) =~~= seq![a].add(split_on(b, d)));
    }
}

/// The delimiter set used for a split: line delimiters or the space byte.
pub open spec fn delim_of(space: bool) -> spec_fn(u8) -> bool {
    if space {
        |c: u8| c == 32
    } else {
        |c: u8| c == 13 || c == 10
    }
}

/// Splits a buffer on line delimiters (carriage return and line feed) when
/// `space` is false, or on single spaces when it is true.
pub fn split_bytes(s: &[u8], space: bool) -> (r: Vec<Vec<u8>>)
    ensures
        views_of(r@) == split_on(s@, delim_of(space)),
        r@.len() >= 1,
{
    let ghost d = delim_of(space);
    let mut done: Vec<Vec<u8>> = Vec::new();
    let mut cur: Vec<u8> = Vec::new();
    let mut i: usize = 0;
    proof {
        assert(s@.skip(0) =~= s@);
        lemma_split_on_len(s@, d);
        assert(views_of(done@).add(prepend_first(cur@, split_on(s@, d))) =~~= split_on(s@, d));
    }
    while i < s.len()
        invariant
            i <= s@.len(),
            d == delim_of(space),
            views_of(done@).add(prepend_first(cur@, split_on(s@.skip(i as int), d))) == split_on(
                s@,
                d,
            ),
        decreases s@.len() - i,
    {
        let c = s[i];
        let is_delim = if space {
            c == 32
        } else {
            c == 13 || c == 10
        };
        proof {
            assert(s@.skip(i as int)[0] == s@[i as int]);
            assert(s@.skip(i as int).drop_first() =~= s@.skip(i + 1));
            lemma_split_on_len(s@.skip(i + 1), d);
        }
        if is_delim {
            let finished = cur;
            cur = Vec::new();
            proof {
                assert(views_of(done@.push(finished)) =~~= views_of(done@).push(finished@));
                assert(prepend_first(finished@, split_on(s@.skip(i as int), d))[0]
                    =~= finished@.add(Seq::<u8>::empty()));
                assert(views_of(done@.push(finished)).add(
                    prepend_first(Seq::<u8>::empty(), split_on(s@.skip(i + 1), d)),
                ) =~~= views_of(done@).add(
                    prepend_first(finished@, split_on(s@.skip(i as int), d)),
                ));
            }
            done.push(finished);
        } else {
            proof {
                let rest = split_on(s@.skip(i + 1), d);
                assert(split_on(s@.skip(i as int), d) =~~= prepend_first(seq![s@[i as int]], rest));
                assert(prepend_first(cur@.push(c), rest) =~~= prepend_first(
                    cur@,
                    prepend_first(seq![s@[i as int]], rest),
                ));
            }
            cur.push(c);
        }
        i = i + 1;
    }
    proof {
        assert(s@.skip(s@.len() as int) =~= Seq::<u8>::empty());
        assert(prepend_first(cur@, split_on(s@.skip(s@.len() as int), d)) =~~= seq![cur@]);
        assert(views_of(done@.push(cur)) =~~= views_of(done@).add(seq![cur@]));
        lemma_split_on_len(s@, d);
    }
    done.push(cur);
    proof {
        assert(views_of(done@).len() == done@.len());
    }
    done
}

/// Whitespace trimmed from header names and values: space and tab.
pub open spec fn is_ws(c: u8) -> bool {
    c == 32 || c == 9
}

/// The sequence without its leading whitespace.
pub open spec fn trim_start(s: Seq<u8>) -> Seq<u8>
    decreases s.len(),
{
    if s.len() > 0 && is_ws(s[0]) {
        trim_start(s.drop_first())
    } else {
        s
    }
}

/// The sequence without its trailing whitespace.
pub open spec fn trim_end(s: Seq<u8>) -> Seq<u8>
    decreases s.len(),
{
    if s.len() > 0 && is_ws(s.last()) {
        trim_end(s.drop_last())
    } else {
        s
    }
}

/// The sequence without leading or trailing whitespace.
pub open spec fn trim(s: Seq<u8>) -> Seq<u8> {
    trim_end(trim_start(s))
}

/// Copies a byte slice with leading and trailing whitespace removed.
pub fn trim_bytes(s: &[u8]) -> (r: Vec<u8>)
    ensures
        r@ == trim(s@),
{
    let mut start: usize = 0;
    proof {
        assert(s@.skip(0) =~= s@);
    }
    while start < s.len() && (s[start] == 32 || s[start] == 9)
        invariant
            start <= s@.len(),
            trim_start(s@) == trim_start(s@.skip(start as int)),
        decreases s@.len() - start,
    {
        proof {
            assert(s@.skip(start as int)[0] == s@[start as int]);
            assert(s@.skip(start as int).drop_first() =~= s@.skip(start + 1));
        }
        start = start + 1;
    }
    proof {
        if start < s@.len() {
            assert(s@.skip(start as int)[0] == s@[start as int]);
        }
        assert(trim_start(s@) == s@.skip(start as int));
    }
    let mut end: usize = s.len();
    while end > start && (s[end - 1] == 32 || s[end - 1] == 9)
        invariant
            start <= end <= s@.len(),
            trim_start(s@) == s@.skip(start as int),
            trim_end(s@.skip(start as int)) == trim_end(s@.subrange(start as int, end as int)),
        decreases end,
    {
        proof {
            let t = s@.subrange(start as int, end as int);
            assert(t.last() == s@[end - 1]);
            assert(t.drop_last() =~= s@.subrange(start as int, end - 1));
        }
        end = end - 1;
    }
    proof {
        let t = s@.subrange(start as int, end as int);
        if end > start {
            assert(t.last() == s@[end - 1]);
        }
        assert(trim_end(t) == t);
    }
    let mut out: Vec<u8> = Vec::new();
    let mut i: usize = start;
    while i < end
        invariant
            start <= i <= end <= s@.len(),
            out@ == s@.subrange(start as int, i as int),
        decreases end - i,
    {
        proof {
            assert(s@.subrange(start as int, i + 1) =~= s@.subrange(start as int, i as int).push(
                s@[i as int],
            ));
        }
        out.push(s[i]);
        i = i + 1;
    }
    out
}

/// Index of the first colon of a byte sequence, if any.
pub open spec fn first_colon_spec(s: Seq<u8>) -> Option<int>
    decreases s.len(),
{
    if s.len() == 0 {
        None
    } else if s[0] == 58 {
        Some(0int)
    } else {
        match first_colon_spec(s.drop_first()) {
            None => None,
            Some(j) => Some(j + 1),
        }
    }
}

/// Index of the first colon of a header line, if any.
pub fn first_colon(s: &[u8]) -> (r: Option<usize>)
    ensures
        match r {
            Some(j) => first_colon_spec(s@) == Some(j as int) && j < s@.len() && s@[j as int]
                == 58,
            None => first_colon_spec(s@) is None,
        },
{
    let mut i: usize = 0;
    proof {
        assert(s@.skip(0) =~= s@);
    }
    while i < s.len()
        invariant
            i <= s@.len(),
            first_colon_spec(s@) == match first_colon_spec(s@.skip(i as int)) {
                None => None,
                Some(j) => Some(j + i),
            },
        decreases s@.len() - i,
    {
        proof {
            assert(s@.skip(i as int)[0] == s@[i as int]);
            assert(s@.skip(i as int).drop_first() =~= s@.skip(i + 1));
        }
        if s[i] == 58 {
            return Some(i);
        }
        i = i + 1;
    }
    None
}

/// Byte-for-byte equality of two slices.
pub fn bytes_eq(a: &[u8], b: &[u8]) -> (r: bool)
    ensures
        r == (a@ == b@),
{
    if a.len() != b.len() {
        proof {
            if a@ == b@ {
                assert(a@.len() == b@.len());
            }
        }
        return false;
    }
    let mut i: usize = 0;
    while i < a.len()
        invariant
            i <= a@.len(),
            a@.len() == b@.len(),
            forall|k: int| 0 <= k < i ==> a@[k] == b@[k],
        decreases a@.len() - i,
    {
        if a[i] != b[i] {
            proof {
                if a@ == b@ {
                    assert(a@[i as int] == b@[i as int]);
                }
            }
            return false;
        }
        i = i + 1;
    }
    proof {
        assert(a@ =~= b@);
    }
    true
}


/// Splitting on one specific byte.
pub open spec fn byte_delim(d: u8) -> spec_fn(u8) -> bool {
    |c: u8| c == d
}

/// Splits a buffer on every occurrence of one byte; empty segments kept.
pub fn split_byte(s: &[u8], d: u8) -> (r: Vec<Vec<u8>>)
    ensures
        views_of(r@) == split_on(s@, byte_delim(d)),
        r@.len() >= 1,
{
    let ghost dd = byte_delim(d);
    let mut done: Vec<Vec<u8>> = Vec::new();
    let mut cur: Vec<u8> = Vec::new();
    let mut i: usize = 0;
    proof {
        assert(s@.skip(0) =~= s@);
        lemma_split_on_len(s@, dd);
        assert(views_of(done@).add(prepend_first(cur@, split_on(s@, dd))) =~~= split_on(s@, dd));
    }
    while i < s.len()
        invariant
            i <= s@.len(),
            dd == byte_delim(d),
            views_of(done@).add(prepend_first(cur@, split_on(s@.skip(i as int), dd)))
                == split_on(s@, dd),
        decreases s@.len() - i,
    {
        let c = s[i];
        proof {
            assert(s@.skip(i as int)[0] == s@[i as int]);
            assert(s@.skip(i as int).drop_first() =~= s@.skip(i + 1));
            lemma_split_on_len(s@.skip(i + 1), dd);
        }
        if c == d {
            let finished = cur;
            cur = Vec::new();
            proof {
                assert(views_of(done@.push(finished)) =~~= views_of(done@).push(finished@));
                assert(prepend_first(finished@, split_on(s@.skip(i as int), dd))[0]
                    =~= finished@.add(Seq::<u8>::empty()));
                assert(views_of(done@.push(finished)).add(
                    prepend_first(Seq::<u8>::empty(), split_on(s@.skip(i + 1), dd)),
                ) =~~= views_of(done@).add(
                    prepend_first(finished@, split_on(s@.skip(i as int), dd)),
                ));
            }
            done.push(finished);
        } else {
            proof {
                let rest = split_on(s@.skip(i + 1), dd);
                assert(split_on(s@.skip(i as int), dd) =~~= prepend_first(
                    seq![s@[i as int]],
                    rest,
                ));
                assert(prepend_first(cur@.push(c), rest) =~~= prepend_first(
                    cur@,
                    prepend_first(seq![s@[i as int]], rest),
                ));
            }
            cur.push(c);
        }
        i = i + 1;
    }
    proof {
        assert(s@.skip(s@.len() as int) =~= Seq::<u8>::empty());
        assert(prepend_first(cur@, split_on(s@.skip(s@.len() as int), dd)) =~~= seq![cur@]);
        assert(views_of(done@.push(cur)) =~~= views_of(done@).add(seq![cur@]));
        lemma_split_on_len(s@, dd);
    }
    done.push(cur);
    proof {
        assert(views_of(done@).len() == done@.len());
    }
    done
}

/// Joins segments with one byte between each pair.
pub open spec fn join_byte(segs: Seq<Seq<u8>>, d: u8) -> Seq<u8>
    decreases segs.len(),
{
    if segs.len() == 0 {
        Seq::empty()
    } else if segs.len() == 1 {
        segs[0]
    } else {
        segs[0].add(seq![d]).add(join_byte(segs.drop_first(), d))
    }
}

/// Splitting on one byte and joining with it gives the buffer back.
pub proof fn lemma_split_join(s: Seq<u8>, d: u8)
    ensures
        join_byte(split_on(s, byte_delim(d)), d) == s,
    decreases s.len(),
{
    let dd = byte_delim(d);
    if s.len() == 0 {
        assert(join_byte(split_on(s, dd), d) =~= s);
    } else {
        lemma_split_join(s.drop_first(), d);
        lemma_split_on_len(s.drop_first(), dd);
        if dd(s[0]) {
            assert(split_on(s, dd).drop_first() =~~= split_on(s.drop_first(), dd));
            assert(split_on(s, dd)[0] =~= Seq::<u8>::empty());
            assert(join_byte(split_on(s, dd), d) =~= s);
        } else {
            let rest = split_on(s.drop_first(), dd);
            assert(split_on(s, dd)[0] =~= seq![s[0]].add(rest[0]));
            if rest.len() == 1 {
                assert(split_on(s, dd) =~~= seq![seq![s[0]].add(rest[0])]);
                assert(join_byte(rest, d) == rest[0]);
                assert(join_byte(split_on(s, dd), d) =~= s);
            } else {
                assert(split_on(s, dd).drop_first() =~~= rest.drop_first());
                assert(join_byte(split_on(s, dd), d) =~= seq![s[0]].add(rest[0]).add(
                    seq![d],
                ).add(join_byte(rest.drop_first(), d)));
                assert(join_byte(rest, d) =~= rest[0].add(seq![d]).add(
                    join_byte(rest.drop_first(), d),
                ));
                assert(join_byte(split_on(s, dd), d) =~= seq![s[0]].add(join_byte(rest, d)));
                assert(seq![s[0]].add(s.drop_first()) =~= s);
                assert(join_byte(split_on(s, dd), d) =~= s);
            }
        }
    }
}

/// Index of the first occurrence of a byte.
pub open spec fn find_byte_spec(s: Seq<u8>, d: u8) -> Option<int>
    decreases s.len(),
{
    if s.len() == 0 {
        None
    } else if s[0] == d {
        Some(0int)
    } else {
        match find_byte_spec(s.drop_first(), d) {
            None => None,
            Some(j) => Some(j + 1),
        }
    }
}

/// Finds the first occurrence of a byte, if any.
pub fn find_byte(s: &[u8], d: u8) -> (r: Option<usize>)
    ensures
        match r {
            Some(j) => find_byte_spec(s@, d) == Some(j as int) && j < s@.len() && s@[j as int]
                == d && forall|k: int| 0 <= k < j ==> s@[k] != d,
            None => find_byte_spec(s@, d) is None && forall|k: int|
                0 <= k < s@.len() ==> s@[k] != d,
        },
{
    let mut i: usize = 0;
    proof {
        assert(s@.skip(0) =~= s@);
    }
    while i < s.len()
        invariant
            i <= s@.len(),
            forall|k: int| 0 <= k < i ==> s@[k] != d,
            find_byte_spec(s@, d) == match find_byte_spec(s@.skip(i as int), d) {
                None => None,
                Some(j) => Some(j + i),
            },
        decreases s@.len() - i,
    {
        proof {
            assert(s@.skip(i as int)[0] == s@[i as int]);
            assert(s@.skip(i as int).drop_first() =~= s@.skip(i + 1));
        }
        if s[i] == d {
            return Some(i);
        }
        i = i + 1;
    }
    None
}


/// Joining delimiter-free segments and splitting again gives the segments
/// back.
pub proof fn lemma_join_split(segs: Seq<Seq<u8>>, d: u8)
    requires
        segs.len() >= 1,
        forall|i: int, j: int|
            0 <= i < segs.len() && 0 <= j < segs[i].len() ==> #[trigger] segs[i][j] != d,
    ensures
        split_on(join_byte(segs, d), byte_delim(d)) == segs,
    decreases segs.len(),
{
    let dd = byte_delim(d);
    if segs.len() == 1 {
        assert(forall|j: int| 0 <= j < (#[trigger] segs[0]).len() ==> segs[0][j] != d);
        lemma_split_on_clean(segs[0], dd);
        assert(split_on(join_byte(segs, d), dd) =~~= segs);
    } else {
        lemma_join_split(segs.drop_first(), d);
        assert(forall|j: int| 0 <= j < (#[trigger] segs[0]).len() ==> segs[0][j] != d);
        lemma_split_on_prefix(segs[0], d, join_byte(segs.drop_first(), d), dd);
        assert(join_byte(segs, d) =~= segs[0].add(seq![d]).add(join_byte(segs.drop_first(), d)));
        assert(split_on(join_byte(segs, d), dd) =~~= segs);
    }
}

/// The first occurrence of a byte is where it stands with none before it.
pub proof fn lemma_find_byte_char(s: Seq<u8>, d: u8, j: int)
    requires
        0 <= j < s.len(),
        s[j] == d,
        forall|k: int| 0 <= k < j ==> s[k] != d,
    ensures
        find_byte_spec(s, d) == Some(j),
    decreases j,
{
    if j > 0 {
        assert(s[0] != d);
        assert forall|k: int| 0 <= k < j - 1 implies s.drop_first()[k] != d by {
            assert(s.drop_first()[k] == s[k + 1]);
        }
        assert(s.drop_first()[j - 1] == s[j]);
        lemma_find_byte_char(s.drop_first(), d, j - 1);
    }
}


/// Concatenation preserves freedom from a byte.
pub proof fn lemma_add_no_byte(x: Seq<u8>, y: Seq<u8>, b: u8)
    requires
        forall|i: int| 0 <= i < x.len() ==> x[i] != b,
        forall|i: int| 0 <= i < y.len() ==> y[i] != b,
    ensures
        forall|i: int| 0 <= i < x.add(y).len() ==> x.add(y)[i] != b,
{
    assert forall|i: int| 0 <= i < x.add(y).len() implies x.add(y)[i] != b by {
        if i < x.len() {
            assert(x.add(y)[i] == x[i]);
        } else {
            assert(x.add(y)[i] == y[i - x.len()]);
        }
    }
}

/// A join of segments all free of a byte, with a different separator, is
/// free of that byte.
pub proof fn lemma_join_no_byte(segs: Seq<Seq<u8>>, d: u8, b: u8)
    requires
        d != b,
        forall|i: int, j: int|
            0 <= i < segs.len() && 0 <= j < segs[i].len() ==> #[trigger] segs[i][j] != b,
    ensures
        forall|i: int|
            0 <= i < join_byte(segs, d).len() ==> #[trigger] join_byte(segs, d)[i] != b,
    decreases segs.len(),
{
    if segs.len() == 0 {
    } else if segs.len() == 1 {
        assert(forall|j: int| 0 <= j < (#[trigger] segs[0]).len() ==> segs[0][j] != b);
    } else {
        lemma_join_no_byte(segs.drop_first(), d, b);
        let tail = join_byte(segs.drop_first(), d);
        assert(forall|j: int| 0 <= j < (#[trigger] segs[0]).len() ==> segs[0][j] != b);
        lemma_add_no_byte(segs[0], seq![d], b);
        lemma_add_no_byte(segs[0].add(seq![d]), tail, b);
        assert(join_byte(segs, d) == segs[0].add(seq![d]).add(tail));
    }
}

} // verus!
