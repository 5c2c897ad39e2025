//! A declination-sorted index over a catalogue, answering band queries by
//! binary search.
//!
//! Declinations are floating-point values; the caller maps each one to an
//! order-preserving integer key, so the index sorts and searches integers.

use vstd::prelude::*;

verus! {

/// One catalogue object in the index: its declination key and its position
/// in the catalogue.
#[derive(Debug, Clone, Copy, PartialEq, Eq, Structural)]
pub struct IndexEntry {
    /// Order-preserving integer image of the object's declination.
    pub order: u64,
    /// Position of the object in the catalogue.
    pub index: usize,
}

/// Index order: by declination key, ties broken by catalogue position.
pub open spec fn entry_before(a: IndexEntry, b: IndexEntry) -> bool {
    a.order < b.order || (a.order == b.order && a.index < b.index)
}

/// The entries are in strictly increasing index order.
pub open spec fn entries_ascending(entries: Seq<IndexEntry>) -> bool {
    forall|a: int, b: int|
        #![trigger entries[a], entries[b]]
        0 <= a < b < entries.len() ==> entry_before(entries[a], entries[b])
}

/// `entries` lists each object of a catalogue with declination keys `keys`
/// exactly once, in index order.
pub open spec fn indexes_catalogue(entries: Seq<IndexEntry>, keys: Seq<u64>) -> bool {
    &&& entries.len() == keys.len()
    &&& entries_ascending(entries)
    &&& forall|k: int|
        0 <= k < entries.len() ==> (#[trigger] entries[k]).index < keys.len() && keys[entries[k].index as int]
            == entries[k].order
    &&& forall|i: int|
        0 <= i < keys.len() ==> entries.contains(IndexEntry { order: #[trigger] keys[i], index: i as usize })
}

/// Catalogue positions of a run of entries.
pub open spec fn positions(entries: Seq<IndexEntry>) -> Seq<usize> {
    entries.map_values(|e: IndexEntry| e.index)
}

/// A prebuilt, declination-sorted index for repeated band queries.
pub struct DeclinationIndex {
    entries: Vec<IndexEntry>,
}

impl View for DeclinationIndex {
    type V = Seq<IndexEntry>;

    closed spec fn view(&self) -> Seq<IndexEntry> {
        self.entries@
    }
}

impl DeclinationIndex {
    #[verifier::type_invariant]
    spec fn ascending(self) -> bool {
        entries_ascending(self.entries@)
    }

    /// Build the index of a catalogue whose objects have declination keys
    /// `keys` (in catalogue order).
    pub fn from_keys(keys: &Vec<u64>) -> (index: DeclinationIndex)
        ensures
            indexes_catalogue(index@, keys@),
            forall|a: int, b: int|
                #![trigger index@[a], index@[b]]
                0 <= a < b < index@.len() ==> index@[a].order < index@[b].order || (index@[a].order
                    == index@[b].order && index@[a].index < index@[b].index),
    {
        let mut entries: Vec<IndexEntry> = Vec::new();
        let mut i: usize = 0;
        while i < keys.len()
            invariant
                i <= keys.len(),
                entries.len() == i,
                entries_ascending(entries@),
                forall|k: int|
                    0 <= k < entries.len() ==> (#[trigger] entries@[k]).index < i && keys@[entries@[k].index as int]
                        == entries@[k].order,
                forall|m: int|
                    0 <= m < i ==> entries@.contains(IndexEntry { order: #[trigger] keys@[m], index: m as usize }),
            decreases keys.len() - i,
        {
            let entry = IndexEntry { order: keys[i], index: i };
            let mut pos: usize = 0;
            while pos < entries.len() && (entries[pos].order < entry.order || (entries[pos].order
                == entry.order && entries[pos].index < entry.index))
                invariant
                    pos <= entries.len(),
                    forall|k: int| 0 <= k < pos ==> entry_before(#[trigger] entries@[k], entry),
                decreases entries.len() - pos,
            {
                pos = pos + 1;
            }
            let ghost prev = entries@;
            proof {
                assert forall|k: int| pos <= k < prev.len() implies entry_before(
                    entry,
                    #[trigger] prev[k],
                ) by {
                    assert(prev[k].index < i);
                    if k > pos {
                        assert(entry_before(prev[pos as int], prev[k]));
                    }
                }
            }
            entries.insert(pos, entry);
            proof {
                assert forall|a: int, b: int|
                    #![trigger entries@[a], entries@[b]]
                    0 <= a < b < entries.len() implies entry_before(entries@[a], entries@[b]) by {
                    if a < pos && b == pos {
                        assert(entries@[a] == prev[a]);
                    } else if a == pos {
                        assert(entries@[b] == prev[b - 1]);
                    } else if a < pos && b > pos {
                        assert(entries@[a] == prev[a]);
                        assert(entries@[b] == prev[b - 1]);
                        assert(entry_before(prev[a], entry));
                        assert(entry_before(entry, prev[b - 1]));
                    } else if b < pos {
                        assert(entries@[a] == prev[a]);
                        assert(entries@[b] == prev[b]);
                    } else {
                        assert(entries@[a] == prev[a - 1]);
                        assert(entries@[b] == prev[b - 1]);
                    }
                }
                assert forall|k: int|
                    0 <= k < entries.len() implies (#[trigger] entries@[k]).index < i + 1 && keys@[entries@[k].index as int]
                        == entries@[k].order by {
                    if k < pos {
                        assert(entries@[k] == prev[k]);
                    } else if k > pos {
                        assert(entries@[k] == prev[k - 1]);
                    }
                }
                assert forall|m: int|
                    0 <= m < i + 1 implies entries@.contains(IndexEntry { order: #[trigger] keys@[m], index: m as usize }) by {
                    let e = IndexEntry { order: keys@[m], index: m as usize };
                    if m == i {
                        assert(entries@[pos as int] == e);
                    } else {
                        assert(prev.contains(e));
                        let k = choose|k: int| 0 <= k < prev.len() && prev[k] == e;
                        if k < pos {
                            assert(entries@[k] == e);
                        } else {
                            assert(entries@[k + 1] == e);
                        }
                    }
                }
            }
            i = i + 1;
        }
        DeclinationIndex { entries }
    }

    /// First position whose key is at least `low` (every earlier key is
    /// below it).
    fn first_at_least(&self, low: u64) -> (start: usize)
        ensures
            start <= self@.len(),
            forall|k: int| 0 <= k < start ==> (#[trigger] self@[k]).order < low,
            forall|k: int| start <= k < self@.len() ==> (#[trigger] self@[k]).order >= low,
    {
        proof {
            use_type_invariant(self);
        }
        let mut lo: usize = 0;
        let mut hi: usize = self.entries.len();
        while lo < hi
            invariant
                hi <= self.entries.len(),
                lo <= hi,
                entries_ascending(self.entries@),
                forall|k: int| 0 <= k < lo ==> (#[trigger] self.entries@[k]).order < low,
                forall|k: int| hi <= k < self.entries.len() ==> (#[trigger] self.entries@[k]).order >= low,
            decreases hi - lo,
        {
            let mid = lo + (hi - lo) / 2;
            if self.entries[mid].order < low {
                proof {
                    assert forall|k: int| 0 <= k < mid + 1 implies (#[trigger] self.entries@[k]).order < low by {
                        if k < mid {
                            assert(entry_before(self.entries@[k], self.entries@[mid as int]));
                        }
                    }
                }
                lo = mid + 1;
            } else {
                proof {
                    assert forall|k: int| mid <= k < self.entries.len() implies (#[trigger] self.entries@[k]).order >= low by {
                        if k > mid {
                            assert(entry_before(self.entries@[mid as int], self.entries@[k]));
                        }
                    }
                }
                hi = mid;
            }
        }
        lo
    }

    /// First position whose key is above `high` (every earlier key is at
    /// most `high`).
    fn first_above(&self, high: u64) -> (end: usize)
        ensures
            end <= self@.len(),
            forall|k: int| 0 <= k < end ==> (#[trigger] self@[k]).order <= high,
            forall|k: int| end <= k < self@.len() ==> (#[trigger] self@[k]).order > high,
    {
        proof {
            use_type_invariant(self);
        }
        let mut lo: usize = 0;
        let mut hi: usize = self.entries.len();
        while lo < hi
            invariant
                hi <= self.entries.len(),
                lo <= hi,
                entries_ascending(self.entries@),
                forall|k: int| 0 <= k < lo ==> (#[trigger] self.entries@[k]).order <= high,
                forall|k: int| hi <= k < self.entries.len() ==> (#[trigger] self.entries@[k]).order > high,
            decreases hi - lo,
        {
            let mid = lo + (hi - lo) / 2;
            if self.entries[mid].order <= high {
                proof {
                    assert forall|k: int| 0 <= k < mid + 1 implies (#[trigger] self.entries@[k]).order <= high by {
                        if k < mid {
                            assert(entry_before(self.entries@[k], self.entries@[mid as int]));
                        }
                    }
                }
                lo = mid + 1;
            } else {
                proof {
                    assert forall|k: int| mid <= k < self.entries.len() implies (#[trigger] self.entries@[k]).order > high by {
                        if k > mid {
                            assert(entry_before(self.entries@[mid as int], self.entries@[k]));
                        }
                    }
                }
                hi = mid;
            }
        }
        lo
    }

    /// Catalogue positions of the objects whose declination key lies in
    /// `[low, high]`, in index order.
    pub fn band(&self, low: u64, high: u64) -> (found: Vec<usize>)
        requires
            low <= high,
        ensures
            exists|start: int, end: int|
                #![trigger self@.subrange(start, end)]
                0 <= start <= end <= self@.len() && (forall|k: int|
                    0 <= k < start ==> (#[trigger] self@[k]).order < low) && (forall|k: int|
                    start <= k < end ==> low <= (#[trigger] self@[k]).order <= high) && (forall|k: int|
                    end <= k < self@.len() ==> (#[trigger] self@[k]).order > high) && found@
                    == positions(self@.subrange(start, end)),
            forall|a: int, b: int|
                #![trigger self@[a], self@[b]]
                0 <= a < b < self@.len() ==> self@[a].order < self@[b].order || (self@[a].order
                    == self@[b].order && self@[a].index < self@[b].index),
    {
        proof {
            use_type_invariant(self);
        }
        let start = self.first_at_least(low);
        let end = self.first_above(high);
        if end < start {
            assert(self@[end as int].order > high);
            assert(self@[end as int].order < low);
        }
        let mut found: Vec<usize> = Vec::new();
        let mut k = start;
        while k < end
            invariant
                start <= k <= end,
                end <= self.entries.len(),
                found@ == positions(self.entries@.subrange(start as int, k as int)),
            decreases end - k,
        {
            found.push(self.entries[k].index);
            assert(self.entries@.subrange(start as int, k + 1) =~= self.entries@.subrange(
                start as int,
                k as int,
            ).push(self.entries@[k as int]));
            k = k + 1;
        }
        assert(found@ =~= positions(self@.subrange(start as int, end as int)));
        found
    }

    /// Catalogue positions of every object, in index order.
    pub fn all(&self) -> (found: Vec<usize>)
        ensures
            found@ == positions(self@),
            forall|a: int, b: int|
                #![trigger self@[a], self@[b]]
                0 <= a < b < self@.len() ==> self@[a].order < self@[b].order || (self@[a].order
                    == self@[b].order && self@[a].index < self@[b].index),
    {
        proof {
            use_type_invariant(self);
        }
        let mut found: Vec<usize> = Vec::new();
        let mut k: usize = 0;
        while k < self.entries.len()
            invariant
                k <= self.entries.len(),
                found@ == positions(self.entries@.subrange(0, k as int)),
            decreases self.entries.len() - k,
        {
            found.push(self.entries[k].index);
            assert(self.entries@.subrange(0, k + 1) =~= self.entries@.subrange(0, k as int).push(
                self.entries@[k as int],
            ));
            k = k + 1;
        }
        assert(self.entries@.subrange(0, self.entries.len() as int) =~= self.entries@);
        found
    }
}

} // verus!
