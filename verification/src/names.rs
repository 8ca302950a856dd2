//! The names of the colour regions: one name and one abbreviation for each region id.

use vstd::prelude::*;

verus! {

/// The name and abbreviation of region `color_id`.
#[derive(Debug, PartialEq, Eq)]
pub struct NameEntry {
    pub color_id: u32,
    pub name: String,
    pub abbr: String,
}

/// Why a set of region names is refused.
#[derive(Clone, Copy, Debug, PartialEq, Eq)]
pub enum NameError {
    /// Region `color_id` has a name already: entry `holder` holds it.
    ConflictingId { color_id: u32, holder: usize },
    /// Entries `first` and `second` have the same name.
    DuplicateName { first: usize, second: usize },
    /// Entries `first` and `second` have the same abbreviation.
    DuplicateAbbr { first: usize, second: usize },
    /// No entry names region `color_id`, although `max_id`, a larger id, is named.
    MissingId { color_id: u32, max_id: u32 },
}

/// Whether one of `entries` names region `id`.
pub open spec fn has_id(entries: Seq<NameEntry>, id: u32) -> bool {
    exists|i: int| 0 <= i < entries.len() && (#[trigger] entries[i]).color_id == id
}

/// No two of `entries` name the same region.
pub open spec fn distinct_ids(entries: Seq<NameEntry>) -> bool {
    forall|i: int, j: int|
        0 <= i < j < entries.len() ==> (#[trigger] entries[i]).color_id != (
        #[trigger] entries[j]).color_id
}

/// The largest region id that `entries` name, 0 where there is none.
pub open spec fn max_id(entries: Seq<NameEntry>) -> u32
    decreases entries.len(),
{
    if entries.len() == 0 {
        0
    } else {
        let rest = max_id(entries.drop_last());
        if entries.last().color_id > rest {
            entries.last().color_id
        } else {
            rest
        }
    }
}

/// Entries `i` and `j` share their name or their abbreviation.
pub open spec fn clash(entries: Seq<NameEntry>, i: int, j: int) -> bool {
    entries[i].name@ == entries[j].name@ || entries[i].abbr@ == entries[j].abbr@
}

/// No two of `entries` share a name or an abbreviation.
pub open spec fn clash_free(entries: Seq<NameEntry>) -> bool {
    forall|a: int, b: int| 0 <= a < b < entries.len() ==> !clash(entries, a, b)
}

/// `(i, j)` is the first pair of entries that clash: no earlier entry than `i` clashes with
/// a later one, and `i` clashes with none between itself and `j`.
pub open spec fn first_clash(entries: Seq<NameEntry>, i: int, j: int) -> bool {
    &&& 0 <= i < j < entries.len()
    &&& clash(entries, i, j)
    &&& forall|a: int, b: int|
        0 <= a < b < entries.len() && (a < i || (a == i && b < j)) ==> !clash(entries, a, b)
}

/// What validating `entries` yields: the first pair that shares a name or an abbreviation
/// (the name is reported where both are shared); else the least id from 1 up to the largest
/// that no entry names; else success.
pub open spec fn is_name_outcome(entries: Seq<NameEntry>, r: Result<(), NameError>) -> bool {
    match r {
        Ok(_) => {
            &&& clash_free(entries)
            &&& forall|id: u32| 1 <= id <= max_id(entries) ==> has_id(entries, id)
        },
        Err(NameError::DuplicateName { first, second }) => {
            &&& first_clash(entries, first as int, second as int)
            &&& entries[first as int].name@ == entries[second as int].name@
        },
        Err(NameError::DuplicateAbbr { first, second }) => {
            &&& first_clash(entries, first as int, second as int)
            &&& entries[first as int].name@ != entries[second as int].name@
        },
        Err(NameError::MissingId { color_id, max_id: largest }) => {
            &&& clash_free(entries)
            &&& largest == max_id(entries)
            &&& 1 <= color_id < largest
            &&& !has_id(entries, color_id)
            &&& forall|id: u32| 1 <= id < color_id ==> has_id(entries, id)
        },
        Err(NameError::ConflictingId { .. }) => false,
    }
}

/// The largest id is an upper bound of all ids, and is itself an id unless it is 0.
pub proof fn lemma_max_id(entries: Seq<NameEntry>)
    ensures
        forall|i: int| 0 <= i < entries.len() ==> (#[trigger] entries[i]).color_id <= max_id(entries),
        max_id(entries) != 0 ==> has_id(entries, max_id(entries)),
    decreases entries.len(),
{
    if entries.len() > 0 {
        let rest = entries.drop_last();
        lemma_max_id(rest);
        assert forall|i: int| 0 <= i < entries.len() implies (#[trigger] entries[i]).color_id
            <= max_id(entries) by {
            if i < rest.len() {
                assert(rest[i] == entries[i]);
            }
        }
        if max_id(entries) != 0 {
            if entries.last().color_id > max_id(rest) {
                assert(entries[entries.len() - 1].color_id == max_id(entries));
            } else {
                let i = choose|i: int| 0 <= i < rest.len() && (#[trigger] rest[i]).color_id == max_id(rest);
                assert(entries[i].color_id == max_id(entries));
            }
        }
    }
}

/// The names of the regions, in the order in which they were added. No region is named twice.
pub struct NameMap {
    entries: Vec<NameEntry>,
}

impl NameMap {
    /// The entries, in the order in which they were added.
    pub closed spec fn entries(&self) -> Seq<NameEntry> {
        self.entries@
    }

    /// No region is named twice.
    pub open spec fn wf(&self) -> bool {
        distinct_ids(self.entries())
    }

    /// A map that names no region.
    pub fn new() -> (map: NameMap)
        ensures
            map.wf(),
            map.entries().len() == 0,
    {
        NameMap { entries: Vec::new() }
    }

    /// Number of regions named.
    pub fn len(&self) -> (n: usize)
        ensures
            n == self.entries().len(),
    {
        self.entries.len()
    }

    /// The entry at `index`, in the order of adding.
    pub fn entry(&self, index: usize) -> (e: &NameEntry)
        requires
            index < self.entries().len(),
        ensures
            *e == self.entries()[index as int],
    {
        &self.entries[index]
    }

    /// Where the entry of region `color_id` stands, or `None` where the region has no name.
    pub fn find(&self, color_id: u32) -> (r: Option<usize>)
        ensures
            r is Some <==> has_id(self.entries(), color_id),
            r matches Some(i) ==> i < self.entries().len() && self.entries()[i as int].color_id
                == color_id,
    {
        let mut i: usize = 0;
        while i < self.entries.len()
            invariant
                i <= self.entries@.len(),
                forall|k: int| 0 <= k < i ==> (#[trigger] self.entries@[k]).color_id != color_id,
            decreases self.entries.len() - i,
        {
            if self.entries[i].color_id == color_id {
                return Some(i);
            }
            i += 1;
        }
        None
    }
}

/// Names region `color_id`, unless it has a name already: then the map stays as it is and
/// the entry that holds the id is reported.
pub fn add_name_to_map(map: &mut NameMap, color_id: u32, name: String, abbr: String) -> (r: Result<
    (),
    NameError,
>)
    requires
        old(map).wf(),
    ensures
        final(map).wf(),
        r is Ok <==> !has_id(old(map).entries(), color_id),
        r is Ok ==> final(map).entries() == old(map).entries().push(
            (NameEntry { color_id, name, abbr }),
        ),
        r is Err ==> final(map).entries() == old(map).entries(),
        r matches Err(e) ==> e matches NameError::ConflictingId { color_id: id, holder } && id
            == color_id && holder < old(map).entries().len() && old(map).entries()[holder as int].color_id
            == color_id,
{
    match map.find(color_id) {
        Some(holder) => Err(NameError::ConflictingId { color_id, holder }),
        None => {
            map.entries.push(NameEntry { color_id, name, abbr });
            Ok(())
        },
    }
}

/// Checks that no two regions share a name or an abbreviation, and that every id from 1 up
/// to the largest one named has a name.
pub fn validate_name_map(map: &NameMap) -> (r: Result<(), NameError>)
    ensures
        is_name_outcome(map.entries(), r),
{
    let n = map.entries.len();
    let ghost entries = map.entries@;
    let mut largest: u32 = 0;
    let mut i: usize = 0;
    while i < n
        invariant
            i <= n,
            n == entries.len(),
            entries == map.entries@,
            largest == max_id(entries.take(i as int)),
            forall|a: int, b: int| 0 <= a < b < n && a < i ==> !clash(entries, a, b),
        decreases n - i,
    {
        let mut j: usize = i + 1;
        while j < n
            invariant
                i < j <= n,
                n == entries.len(),
                entries == map.entries@,
                forall|a: int, b: int| 0 <= a < b < n && a < i ==> !clash(entries, a, b),
                forall|b: int| i < b < j ==> !clash(entries, i as int, b),
            decreases n - j,
        {
            if map.entries[i].name == map.entries[j].name {
                return Err(NameError::DuplicateName { first: i, second: j });
            }
            if map.entries[i].abbr == map.entries[j].abbr {
                return Err(NameError::DuplicateAbbr { first: i, second: j });
            }
            j += 1;
        }
        proof {
            assert(entries.take(i + 1).drop_last() =~= entries.take(i as int));
            assert(entries.take(i + 1).last() == entries[i as int]);
        }
        if map.entries[i].color_id > largest {
            largest = map.entries[i].color_id;
        }
        i += 1;
    }
    proof {
        assert(entries.take(n as int) =~= entries);
        lemma_max_id(entries);
    }
    let mut id: u32 = 1;
    while id < largest
        invariant
            1 <= id,
            entries == map.entries@,
            clash_free(entries),
            largest == max_id(entries),
            has_id(entries, largest) || largest == 0,
            forall|k: u32| 1 <= k < id ==> has_id(entries, k),
        decreases largest - id,
    {
        if map.find(id).is_none() {
            return Err(NameError::MissingId { color_id: id, max_id: largest });
        }
        id += 1;
    }
    Ok(())
}

} // verus!
