//! The gateway's registration table: which live connection owns each
//! identifier.
//!
//! Connections are held as opaque numeric handles chosen by the caller,
//! which keeps the transport objects themselves outside the library.  The
//! table's invariant — at most one connection per identifier at any
//! instant — is established by the constructor and preserved by every
//! operation.  Registration is all-or-nothing: when any identifier of a
//! batch is already owned, nothing is inserted.

use vstd::prelude::*;

use crate::mac::Mac;

verus! {

/// Identifier-to-connection table.
pub struct Registry {
    entries: Vec<(Mac, u64)>,
}

/// The views of the table's entries.
pub open spec fn reg_views(es: Seq<(Mac, u64)>) -> Seq<(Seq<u8>, u64)> {
    es.map_values(|p: (Mac, u64)| (p.0@, p.1))
}

/// The connection owning an identifier, if any: the first matching entry.
pub open spec fn reg_lookup(es: Seq<(Seq<u8>, u64)>, m: Seq<u8>) -> Option<u64>
    decreases es.len(),
{
    if es.len() == 0 {
        None
    } else if es[0].0 == m {
        Some(es[0].1)
    } else {
        reg_lookup(es.drop_first(), m)
    }
}

/// At most one entry per identifier.
pub open spec fn reg_unique(es: Seq<(Seq<u8>, u64)>) -> bool {
    forall|i: int, j: int| 0 <= i < j < es.len() ==> (#[trigger] es[i]).0 != (#[trigger] es[j]).0
}

impl Registry {
    /// The table's abstract contents.
    pub closed spec fn entries(&self) -> Seq<(Seq<u8>, u64)> {
        reg_views(self.entries@)
    }

    /// The invariant: the table holds at most one connection per
    /// identifier at any instant.
    pub open spec fn wf(&self) -> bool {
        reg_unique(self.entries())
    }

    /// An empty table.
    pub fn new() -> (r: Registry)
        ensures
            r.entries() =~= Seq::<(Seq<u8>, u64)>::empty(),
            r.wf(),
    {
        let r = Registry { entries: Vec::new() };
        proof {
            assert(r.entries() =~= Seq::<(Seq<u8>, u64)>::empty());
        }
        r
    }

    /// The connection owning the identifier, if any.
    pub fn lookup(&self, mac: &Mac) -> (r: Option<u64>)
        ensures
            r == reg_lookup(self.entries(), mac@),
    {
        let mut i: usize = 0;
        proof {
            assert(self.entries().skip(0) =~= self.entries());
        }
        while i < self.entries.len()
            invariant
                i <= self.entries@.len(),
                reg_lookup(self.entries(), mac@) == reg_lookup(
                    self.entries().skip(i as int),
                    mac@,
                ),
            decreases self.entries@.len() - i,
        {
            proof {
                assert(self.entries().skip(i as int)[0] == self.entries()[i as int]);
                assert(self.entries().skip(i as int).drop_first() =~= self.entries().skip(i + 1));
            }
            if self.entries[i].0.same(mac) {
                return Some(self.entries[i].1);
            }
            i = i + 1;
        }
        None
    }

    /// Registers a batch of identifiers for one connection, atomically:
    /// when any of them already has an owner nothing changes and the batch
    /// is rejected; otherwise every one of them maps to the connection
    /// afterwards, and no other identifier's owner changes.
    pub fn register_all(&mut self, macs: &Vec<Mac>, conn: u64) -> (ok: bool)
        ensures
            ok <==> forall|k: int|
                0 <= k < macs@.len() ==> reg_lookup(old(self).entries(), (#[trigger] macs@[k])@)
                    is None,
            !ok ==> *final(self) == *old(self),
            ok ==> forall|k: int|
                0 <= k < macs@.len() ==> reg_lookup(final(self).entries(), (#[trigger] macs@[k])@)
                    == Some(conn),
            ok ==> forall|m: Seq<u8>|
                (forall|k: int| 0 <= k < macs@.len() ==> (#[trigger] macs@[k])@ != m)
                    ==> #[trigger] reg_lookup(final(self).entries(), m) == reg_lookup(
                    old(self).entries(),
                    m,
                ),
            old(self).wf() ==> final(self).wf(),
    {
        let mut i: usize = 0;
        while i < macs.len()
            invariant
                i <= macs@.len(),
                self == old(self),
                forall|k: int|
                    0 <= k < i ==> reg_lookup(self.entries(), (#[trigger] macs@[k])@) is None,
            decreases macs@.len() - i,
        {
            if self.lookup(&macs[i]).is_some() {
                return false;
            }
            i = i + 1;
        }
        let mut j: usize = 0;
        while j < macs.len()
            invariant
                j <= macs@.len(),
                forall|k: int|
                    0 <= k < macs@.len() ==> reg_lookup(old(self).entries(), (
                    #[trigger] macs@[k])@) is None,
                forall|k: int|
                    0 <= k < j ==> reg_lookup(self.entries(), (#[trigger] macs@[k])@) == Some(
                        conn,
                    ),
                forall|m: Seq<u8>|
                    (forall|k: int| 0 <= k < macs@.len() ==> (#[trigger] macs@[k])@ != m)
                        ==> #[trigger] reg_lookup(self.entries(), m) == reg_lookup(
                        old(self).entries(),
                        m,
                    ),
                old(self).wf() ==> self.wf(),
            decreases macs@.len() - j,
        {
            self.insert_one(&macs[j], conn);
            j = j + 1;
        }
        true
    }

    /// Removes every identifier of a batch, so that none of them keeps an
    /// owner; other identifiers' owners do not change.
    pub fn remove_all(&mut self, macs: &Vec<Mac>)
        ensures
            forall|k: int|
                0 <= k < macs@.len() ==> reg_lookup(final(self).entries(), (#[trigger] macs@[k])@)
                    is None,
            forall|m: Seq<u8>|
                (forall|k: int| 0 <= k < macs@.len() ==> (#[trigger] macs@[k])@ != m)
                    ==> #[trigger] reg_lookup(final(self).entries(), m) == reg_lookup(
                    old(self).entries(),
                    m,
                ),
            old(self).wf() ==> final(self).wf(),
    {
        let mut j: usize = 0;
        while j < macs.len()
            invariant
                j <= macs@.len(),
                forall|k: int|
                    0 <= k < j ==> reg_lookup(self.entries(), (#[trigger] macs@[k])@) is None,
                forall|m: Seq<u8>|
                    (forall|k: int| 0 <= k < macs@.len() ==> (#[trigger] macs@[k])@ != m)
                        ==> #[trigger] reg_lookup(self.entries(), m) == reg_lookup(
                        old(self).entries(),
                        m,
                    ),
                old(self).wf() ==> self.wf(),
            decreases macs@.len() - j,
        {
            self.remove_one(&macs[j]);
            proof {
                assert forall|k: int|
                    0 <= k < j + 1 implies reg_lookup(self.entries(), (#[trigger] macs@[k])@)
                    is None by {
                    if k < j && macs@[k]@ != macs@[j as int]@ {
                    }
                }
            }
            j = j + 1;
        }
    }

    /// Maps one identifier to a connection, replacing a previous owner.
    fn insert_one(&mut self, mac: &Mac, conn: u64)
        ensures
            reg_lookup(final(self).entries(), mac@) == Some(conn),
            forall|m: Seq<u8>|
                m != mac@ ==> #[trigger] reg_lookup(final(self).entries(), m) == reg_lookup(
                    old(self).entries(),
                    m,
                ),
            old(self).wf() ==> final(self).wf(),
    {
        let mut i: usize = 0;
        while i < self.entries.len()
            invariant
                i <= self.entries@.len(),
                self == old(self),
                forall|k: int| 0 <= k < i ==> (#[trigger] self.entries()[k]).0 != mac@,
            decreases self.entries@.len() - i,
        {
            if self.entries[i].0.same(mac) {
                let ghost es = self.entries();
                self.entries[i] = (*mac, conn);
                proof {
                    assert(self.entries() =~~= es.update(i as int, (mac@, conn)));
                    lemma_reg_lookup_update(es, mac@, conn, i as int);
                    if old(self).wf() {
                        lemma_reg_unique_update(es, mac@, conn, i as int);
                    }
                }
                return ;
            }
            i = i + 1;
        }
        let ghost es = self.entries();
        self.entries.push((*mac, conn));
        proof {
            assert(self.entries() =~~= es.push((mac@, conn)));
            lemma_reg_lookup_push(es, mac@, conn);
            if old(self).wf() {
                assert forall|i2: int, j2: int|
                    0 <= i2 < j2 < self.entries().len() implies (#[trigger] self.entries()[i2]).0
                    != (#[trigger] self.entries()[j2]).0 by {
                    if j2 < es.len() {
                        assert(self.entries()[i2] == es[i2] && self.entries()[j2] == es[j2]);
                    } else {
                        assert(self.entries()[j2].0 == mac@);
                        lemma_reg_lookup_absent(es, es[i2].0, i2);
                    }
                }
            }
        }
    }

    /// Drops every entry of one identifier.
    fn remove_one(&mut self, mac: &Mac)
        ensures
            final(self).entries() == reg_drop(old(self).entries(), mac@),
            reg_lookup(final(self).entries(), mac@) is None,
            forall|m: Seq<u8>|
                m != mac@ ==> #[trigger] reg_lookup(final(self).entries(), m) == reg_lookup(
                    old(self).entries(),
                    m,
                ),
            old(self).wf() ==> final(self).wf(),
    {
        let ghost full = self.entries();
        let mut out: Vec<(Mac, u64)> = Vec::new();
        let mut i: usize = 0;
        proof {
            assert(full.skip(0) =~= full);
            assert(reg_views(out@).add(reg_drop(full.skip(0), mac@)) =~~= reg_drop(full, mac@));
        }
        while i < self.entries.len()
            invariant
                i <= self.entries@.len(),
                self == old(self),
                full == self.entries(),
                reg_views(out@).add(reg_drop(full.skip(i as int), mac@)) == reg_drop(full, mac@),
            decreases self.entries@.len() - i,
        {
            proof {
                assert(full.skip(i as int)[0] == full[i as int]);
                assert(full.skip(i as int).drop_first() =~= full.skip(i + 1));
            }
            if !self.entries[i].0.same(mac) {
                let kept = self.entries[i];
                proof {
                    assert(reg_views(out@.push(kept)).add(reg_drop(full.skip(i + 1), mac@))
                        =~~= reg_views(out@).add(reg_drop(full.skip(i as int), mac@)));
                }
                out.push(kept);
            }
            i = i + 1;
        }
        proof {
            assert(full.skip(full.len() as int) =~= Seq::<(Seq<u8>, u64)>::empty());
            assert(reg_views(out@) =~~= reg_drop(full, mac@));
        }
        self.entries = out;
        proof {
            lemma_reg_drop_none(full, mac@);
            lemma_reg_drop_lookup(full, mac@);
            if old(self).wf() {
                lemma_reg_drop_unique(full, mac@);
            }
        }
    }
}

/// The entries whose identifier differs from the given one, in order.
pub open spec fn reg_drop(es: Seq<(Seq<u8>, u64)>, m: Seq<u8>) -> Seq<(Seq<u8>, u64)>
    decreases es.len(),
{
    if es.len() == 0 {
        es
    } else if es[0].0 == m {
        reg_drop(es.drop_first(), m)
    } else {
        seq![es[0]].add(reg_drop(es.drop_first(), m))
    }
}

proof fn lemma_reg_drop_none(es: Seq<(Seq<u8>, u64)>, m: Seq<u8>)
    ensures
        reg_lookup(reg_drop(es, m), m) is None,
    decreases es.len(),
{
    if es.len() > 0 {
        lemma_reg_drop_none(es.drop_first(), m);
        if es[0].0 != m {
            assert(reg_drop(es, m)[0] == es[0]);
            assert(reg_drop(es, m).drop_first() =~~= reg_drop(es.drop_first(), m));
        }
    }
}

proof fn lemma_reg_drop_lookup(es: Seq<(Seq<u8>, u64)>, m: Seq<u8>)
    ensures
        forall|m2: Seq<u8>|
            m2 != m ==> #[trigger] reg_lookup(reg_drop(es, m), m2) == reg_lookup(es, m2),
    decreases es.len(),
{
    if es.len() > 0 {
        lemma_reg_drop_lookup(es.drop_first(), m);
        assert forall|m2: Seq<u8>| m2 != m implies #[trigger] reg_lookup(reg_drop(es, m), m2)
            == reg_lookup(es, m2) by {
            if es[0].0 != m {
                assert(reg_drop(es, m)[0] == es[0]);
                assert(reg_drop(es, m).drop_first() =~~= reg_drop(es.drop_first(), m));
                assert(reg_lookup(reg_drop(es.drop_first(), m), m2) == reg_lookup(
                    es.drop_first(),
                    m2,
                ));
            } else {
                assert(reg_drop(es, m) == reg_drop(es.drop_first(), m));
                assert(reg_lookup(reg_drop(es.drop_first(), m), m2) == reg_lookup(
                    es.drop_first(),
                    m2,
                ));
                assert(reg_lookup(es, m2) == reg_lookup(es.drop_first(), m2));
            }
        }
    }
}

proof fn lemma_reg_drop_membership(es: Seq<(Seq<u8>, u64)>, m: Seq<u8>, i: int)
    requires
        0 <= i < reg_drop(es, m).len(),
    ensures
        exists|j: int| 0 <= j < es.len() && #[trigger] es[j] == reg_drop(es, m)[i],
    decreases es.len(),
{
    if es.len() > 0 {
        if es[0].0 == m {
            lemma_reg_drop_membership(es.drop_first(), m, i);
            let j = choose|j: int|
                0 <= j < es.drop_first().len() && #[trigger] es.drop_first()[j] == reg_drop(
                    es.drop_first(),
                    m,
                )[i];
            assert(es[j + 1] == reg_drop(es, m)[i]);
        } else {
            if i == 0 {
                assert(es[0] == reg_drop(es, m)[0]);
            } else {
                lemma_reg_drop_membership(es.drop_first(), m, i - 1);
                let j = choose|j: int|
                    0 <= j < es.drop_first().len() && #[trigger] es.drop_first()[j] == reg_drop(
                        es.drop_first(),
                        m,
                    )[i - 1];
                assert(reg_drop(es, m)[i] == reg_drop(es.drop_first(), m)[i - 1]);
                assert(es[j + 1] == reg_drop(es, m)[i]);
            }
        }
    }
}

proof fn lemma_reg_drop_unique(es: Seq<(Seq<u8>, u64)>, m: Seq<u8>)
    requires
        reg_unique(es),
    ensures
        reg_unique(reg_drop(es, m)),
    decreases es.len(),
{
    if es.len() > 0 {
        assert(reg_unique(es.drop_first())) by {
            assert forall|a: int, b: int|
                0 <= a < b < es.drop_first().len() implies (#[trigger] es.drop_first()[a]).0
                != (#[trigger] es.drop_first()[b]).0 by {
                assert(es[a + 1].0 != es[b + 1].0);
            }
        }
        lemma_reg_drop_unique(es.drop_first(), m);
        if es[0].0 != m {
            let r = reg_drop(es, m);
            assert forall|a: int, b: int| 0 <= a < b < r.len() implies (#[trigger] r[a]).0
                != (#[trigger] r[b]).0 by {
                if a == 0 {
                    lemma_reg_drop_membership(es.drop_first(), m, b - 1);
                    let j = choose|j: int|
                        0 <= j < es.drop_first().len() && #[trigger] es.drop_first()[j]
                            == reg_drop(es.drop_first(), m)[b - 1];
                    assert(r[b] == es[j + 1]);
                    assert(es[0].0 != es[j + 1].0);
                } else {
                    assert(r[a] == reg_drop(es.drop_first(), m)[a - 1]);
                    assert(r[b] == reg_drop(es.drop_first(), m)[b - 1]);
                }
            }
        }
    }
}

proof fn lemma_reg_lookup_update(es: Seq<(Seq<u8>, u64)>, m: Seq<u8>, c: u64, i: int)
    requires
        0 <= i < es.len(),
        es[i].0 == m,
        forall|k: int| 0 <= k < i ==> (#[trigger] es[k]).0 != m,
    ensures
        reg_lookup(es.update(i, (m, c)), m) == Some(c),
        forall|m2: Seq<u8>|
            m2 != m ==> #[trigger] reg_lookup(es.update(i, (m, c)), m2) == reg_lookup(es, m2),
    decreases i,
{
    if i == 0 {
        assert forall|m2: Seq<u8>| m2 != m implies #[trigger] reg_lookup(es.update(0, (m, c)), m2)
            == reg_lookup(es, m2) by {
            assert(es.update(0, (m, c)).drop_first() =~~= es.drop_first());
        }
    } else {
        lemma_reg_lookup_update(es.drop_first(), m, c, i - 1);
        assert(es.update(i, (m, c)).drop_first() =~~= es.drop_first().update(i - 1, (m, c)));
        assert(es.update(i, (m, c))[0] == es[0]);
        assert forall|m2: Seq<u8>| m2 != m implies #[trigger] reg_lookup(es.update(i, (m, c)), m2)
            == reg_lookup(es, m2) by {
            assert(reg_lookup(es.drop_first().update(i - 1, (m, c)), m2) == reg_lookup(
                es.drop_first(),
                m2,
            ));
        }
    }
}

proof fn lemma_reg_unique_update(es: Seq<(Seq<u8>, u64)>, m: Seq<u8>, c: u64, i: int)
    requires
        0 <= i < es.len(),
        es[i].0 == m,
        reg_unique(es),
    ensures
        reg_unique(es.update(i, (m, c))),
{
    let r = es.update(i, (m, c));
    assert forall|a: int, b: int| 0 <= a < b < r.len() implies (#[trigger] r[a]).0
        != (#[trigger] r[b]).0 by {
        assert(es[a].0 != es[b].0);
    }
}

proof fn lemma_reg_lookup_push(es: Seq<(Seq<u8>, u64)>, m: Seq<u8>, c: u64)
    requires
        forall|k: int| 0 <= k < es.len() ==> (#[trigger] es[k]).0 != m,
    ensures
        reg_lookup(es.push((m, c)), m) == Some(c),
        forall|m2: Seq<u8>|
            m2 != m ==> #[trigger] reg_lookup(es.push((m, c)), m2) == reg_lookup(es, m2),
    decreases es.len(),
{
    if es.len() == 0 {
        assert(es.push((m, c)).drop_first() =~~= Seq::<(Seq<u8>, u64)>::empty());
        assert forall|m2: Seq<u8>| m2 != m implies #[trigger] reg_lookup(es.push((m, c)), m2)
            == reg_lookup(es, m2) by {
            assert(reg_lookup(es.push((m, c)).drop_first(), m2) is None);
        }
    } else {
        lemma_reg_lookup_push(es.drop_first(), m, c);
        assert(es.push((m, c)).drop_first() =~~= es.drop_first().push((m, c)));
        assert(es.push((m, c))[0] == es[0]);
        assert forall|m2: Seq<u8>| m2 != m implies #[trigger] reg_lookup(es.push((m, c)), m2)
            == reg_lookup(es, m2) by {
            assert(reg_lookup(es.drop_first().push((m, c)), m2) == reg_lookup(
                es.drop_first(),
                m2,
            ));
        }
    }
}

proof fn lemma_reg_lookup_absent(es: Seq<(Seq<u8>, u64)>, m: Seq<u8>, i: int)
    requires
        0 <= i < es.len(),
        es[i].0 == m,
    ensures
        reg_lookup(es, m) is Some,
    decreases i,
{
    if es[0].0 != m {
        lemma_reg_lookup_absent(es.drop_first(), m, i - 1);
    }
}

proof fn lemma_reg_lookup_absent_all(es: Seq<(Seq<u8>, u64)>, m: Seq<u8>)
    requires
        forall|k: int| 0 <= k < es.len() ==> (#[trigger] es[k]).0 != m,
    ensures
        reg_lookup(es, m) is None,
    decreases es.len(),
{
    if es.len() > 0 {
        lemma_reg_lookup_absent_all(es.drop_first(), m);
    }
}

} // verus!
