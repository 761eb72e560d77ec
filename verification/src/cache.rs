//! The normalizer's memo table.
//!
//! Each entry maps the canonical key of a term to a tri-state cell: a
//! verified normal form, a record that the term failed to normalize, or
//! the sentinel `Unsure` marking a term whose evaluation is still under
//! way.  Seeing the sentinel again while it is still pending marks the
//! rewrite sequence as having looped back into itself.  The table's
//! verified invariant is that every stored normal form is well-formed and
//! truly normal, so a term handed back by a cache hit is itself a proven
//! normal form; that it also stands for the key it is filed under is a
//! design property, not yet tied down by the invariant.

use vstd::prelude::*;

use crate::normal::is_normal;
use crate::term::Combinator;
use crate::term::wf;

verus! {

/// One memo cell: a verified normal form, a proven failure to normalize, or
/// the in-progress sentinel.
pub(crate) enum CacheCell {
    Normal(Combinator),
    Abnormal,
    Unsure,
}

/// The outcome of entering a term into the table.
pub(crate) enum Probe {
    /// The term was seen before and its normal form is known.
    Known(Combinator),
    /// The term was recorded as failing to normalize, or its own
    /// evaluation is still pending, marking a cycle.
    Dead,
    /// The term is new; it has been marked as pending.
    Fresh,
}

/// A memo cell never claims a normal form that is not one.
pub(crate) open spec fn cell_ok(c: CacheCell) -> bool {
    c matches CacheCell::Normal(v) ==> wf(v@) && is_normal(v@)
}

/// The memo table: canonical keys paired with their cells.
pub(crate) struct Cache {
    pub(crate) entries: Vec<(Vec<u8>, CacheCell)>,
}

/// Whether two byte vectors hold the same bytes.
fn bytes_eq(a: &Vec<u8>, b: &Vec<u8>) -> (r: bool)
    ensures
        r == (a@ == b@),
{
    if a.len() != b.len() {
        proof {
            assert(a@ != b@);
        }
        return false;
    }
    let n = a.len();
    let mut i: usize = 0;
    while i < n
        invariant
            n == a@.len(),
            n == b@.len(),
            i <= n,
            forall|j: int| 0 <= j < i ==> a@[j] == b@[j],
        decreases n - i,
    {
        if a[i] != b[i] {
            return false;
        }
        i += 1;
    }
    proof {
        assert(a@ =~= b@);
    }
    true
}

impl Cache {
    /// The table's invariant: every stored normal form is well-formed and
    /// normal.
    pub(crate) open spec fn inv(&self) -> bool {
        forall|i: int| 0 <= i < self.entries@.len() ==> cell_ok(#[trigger] self.entries@[i].1)
    }

    /// An empty table.
    pub(crate) fn new() -> (r: Cache)
        ensures
            r.inv(),
    {
        Cache { entries: Vec::new() }
    }

    /// The index of the entry holding `key`, if any.
    fn find(&self, key: &Vec<u8>) -> (r: Option<usize>)
        ensures
            r matches Some(i) ==> i < self.entries@.len(),
    {
        let n = self.entries.len();
        let mut i: usize = 0;
        while i < n
            invariant
                n == self.entries@.len(),
                i <= n,
            decreases n - i,
        {
            if bytes_eq(&self.entries[i].0, key) {
                return Some(i);
            }
            i += 1;
        }
        None
    }

    /// Replaces the cell at a known index.
    fn set_cell(&mut self, i: usize, cell: CacheCell)
        requires
            old(self).inv(),
            i < old(self).entries@.len(),
            cell_ok(cell),
        ensures
            final(self).inv(),
    {
        let (k, _) = self.entries.remove(i);
        self.entries.insert(i, (k, cell));
    }

    /// Looks `key` up and marks it.  A known normal form comes back as
    /// `Known`; a pending or failed entry proves non-termination and is
    /// marked failed; a missing entry is inserted as pending.
    pub(crate) fn enter(&mut self, key: &Vec<u8>) -> (r: Probe)
        requires
            old(self).inv(),
        ensures
            final(self).inv(),
            r matches Probe::Known(v) ==> wf(v@) && is_normal(v@),
    {
        match self.find(key) {
            Some(i) => {
                let hit = match &self.entries[i].1 {
                    CacheCell::Normal(v) => Some(v.duplicate()),
                    _ => None,
                };
                match hit {
                    Some(v) => {
                        proof {
                            assert(cell_ok(self.entries@[i as int].1));
                        }
                        Probe::Known(v)
                    },
                    None => {
                        self.set_cell(i, CacheCell::Abnormal);
                        Probe::Dead
                    },
                }
            },
            None => {
                let mut k: Vec<u8> = Vec::new();
                let n = key.len();
                let mut j: usize = 0;
                while j < n
                    invariant
                        n == key@.len(),
                        j <= n,
                        k@ == key@.subrange(0, j as int),
                    decreases n - j,
                {
                    k.push(key[j]);
                    j += 1;
                    proof {
                        assert(k@ =~= key@.subrange(0, j as int));
                    }
                }
                self.entries.push((k, CacheCell::Unsure));
                Probe::Fresh
            },
        }
    }

    /// Records the verified normal form reached for `key`.
    pub(crate) fn record_normal(&mut self, key: &Vec<u8>, t: &Combinator)
        requires
            old(self).inv(),
            wf(t@),
            is_normal(t@),
        ensures
            final(self).inv(),
    {
        match self.find(key) {
            Some(i) => {
                self.set_cell(i, CacheCell::Normal(t.duplicate()));
            },
            None => {},
        }
    }

    /// Records that the term behind `key` is proven not to normalize.
    pub(crate) fn record_abnormal(&mut self, key: &Vec<u8>)
        requires
            old(self).inv(),
        ensures
            final(self).inv(),
    {
        match self.find(key) {
            Some(i) => {
                self.set_cell(i, CacheCell::Abnormal);
            },
            None => {},
        }
    }

    /// The normal form stored for `key`, if one is known.
    pub(crate) fn lookup_normal(&self, key: &Vec<u8>) -> (r: Option<Combinator>)
        requires
            self.inv(),
        ensures
            r matches Some(v) ==> wf(v@) && is_normal(v@),
    {
        match self.find(key) {
            Some(i) => {
                proof {
                    assert(cell_ok(self.entries@[i as int].1));
                }
                match &self.entries[i].1 {
                    CacheCell::Normal(v) => Some(v.duplicate()),
                    _ => None,
                }
            },
            None => None,
        }
    }
}

} // verus!
