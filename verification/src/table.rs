//! The dense occupancy table: one region id per (hue, chroma, value) cell, 0 for "unfilled".

use vstd::prelude::*;

verus! {

/// Offset of cell `(h, c, v)` in a table of `hues × chromas × values` cells, hue-major.
pub open spec fn cell_offset(chromas: int, values: int, h: int, c: int, v: int) -> int {
    h * (chromas * values) + c * values + v
}

/// Whether `(h, c, v)` names a cell of a table with the given extents.
pub open spec fn in_table(hues: int, chromas: int, values: int, h: int, c: int, v: int) -> bool {
    0 <= h < hues && 0 <= c < chromas && 0 <= v < values
}

/// Every cell's offset lies inside the buffer of `hues * chromas * values` entries.
pub proof fn lemma_offset_in_bounds(hues: int, chromas: int, values: int, h: int, c: int, v: int)
    requires
        in_table(hues, chromas, values, h, c, v),
    ensures
        0 <= cell_offset(chromas, values, h, c, v) < hues * (chromas * values),
{
    let plane = chromas * values;
    assert(0 <= c * values && c * values + values <= plane) by (nonlinear_arith)
        requires
            0 <= c < chromas,
            0 < values,
            plane == chromas * values,
    ;
    assert(0 <= h * plane && h * plane + plane <= hues * plane) by (nonlinear_arith)
        requires
            0 <= h < hues,
            0 <= plane,
    ;
}

/// Distinct cells have distinct offsets.
pub proof fn lemma_offset_injective(
    hues: int,
    chromas: int,
    values: int,
    h1: int,
    c1: int,
    v1: int,
    h2: int,
    c2: int,
    v2: int,
)
    requires
        in_table(hues, chromas, values, h1, c1, v1),
        in_table(hues, chromas, values, h2, c2, v2),
        cell_offset(chromas, values, h1, c1, v1) == cell_offset(chromas, values, h2, c2, v2),
    ensures
        h1 == h2 && c1 == c2 && v1 == v2,
{
    let plane = chromas * values;
    let r1 = c1 * values + v1;
    let r2 = c2 * values + v2;
    assert(0 <= r1 < plane && 0 <= r2 < plane) by (nonlinear_arith)
        requires
            0 <= c1 < chromas,
            0 <= c2 < chromas,
            0 <= v1 < values,
            0 <= v2 < values,
            plane == chromas * values,
            r1 == c1 * values + v1,
            r2 == c2 * values + v2,
    ;
    assert(h1 == h2) by (nonlinear_arith)
        requires
            h1 * plane + r1 == h2 * plane + r2,
            0 <= r1 < plane,
            0 <= r2 < plane,
    ;
    assert(c1 == c2) by (nonlinear_arith)
        requires
            c1 * values + v1 == c2 * values + v2,
            0 <= v1 < values,
            0 <= v2 < values,
    ;
}

/// A dense table of region ids over `hues × chromas × values` cells, kept in one buffer.
pub struct OccupancyTable {
    hues: usize,
    chromas: usize,
    values: usize,
    cells: Vec<u32>,
}

impl OccupancyTable {
    /// The buffer holds exactly one entry per cell.
    pub closed spec fn wf(&self) -> bool {
        self.cells@.len() == self.hues * (self.chromas * self.values)
    }

    /// Number of hue steps.
    pub closed spec fn hue_count(&self) -> int {
        self.hues as int
    }

    /// Number of chroma cells.
    pub closed spec fn chroma_count(&self) -> int {
        self.chromas as int
    }

    /// Number of value cells.
    pub closed spec fn value_count(&self) -> int {
        self.values as int
    }

    /// Whether `(h, c, v)` names a cell of this table.
    pub open spec fn has_cell(&self, h: int, c: int, v: int) -> bool {
        in_table(self.hue_count(), self.chroma_count(), self.value_count(), h, c, v)
    }

    /// The region id stored at `(h, c, v)`; 0 means that no region holds the cell.
    pub closed spec fn entry(&self, h: int, c: int, v: int) -> u32 {
        self.cells@[cell_offset(self.chromas as int, self.values as int, h, c, v)]
    }

    /// Number of hue steps.
    pub fn hues(&self) -> (n: usize)
        ensures
            n == self.hue_count(),
    {
        self.hues
    }

    /// Number of chroma cells.
    pub fn chromas(&self) -> (n: usize)
        ensures
            n == self.chroma_count(),
    {
        self.chromas
    }

    /// Number of value cells.
    pub fn values(&self) -> (n: usize)
        ensures
            n == self.value_count(),
    {
        self.values
    }

    /// Whether `other` has the same extents.
    pub open spec fn same_extents(&self, other: &OccupancyTable) -> bool {
        &&& self.hue_count() == other.hue_count()
        &&& self.chroma_count() == other.chroma_count()
        &&& self.value_count() == other.value_count()
    }

    /// A table of the given extents with every cell unfilled.
    pub fn new(hues: usize, chromas: usize, values: usize) -> (t: OccupancyTable)
        requires
            hues * (chromas * values) <= usize::MAX,
        ensures
            t.wf(),
            t.hue_count() == hues,
            t.chroma_count() == chromas,
            t.value_count() == values,
            forall|h: int, c: int, v: int| t.has_cell(h, c, v) ==> t.entry(h, c, v) == 0,
    {
        if hues == 0 {
            let t = OccupancyTable { hues, chromas, values, cells: Vec::new() };
            assert(t.wf()) by (nonlinear_arith)
                requires
                    t.cells@.len() == 0,
                    t.hues == 0,
            {
            }
            return t;
        }
        assert(chromas * values <= usize::MAX) by (nonlinear_arith)
            requires
                hues * (chromas * values) <= usize::MAX,
                1 <= hues,
                0 <= chromas * values,
        ;
        let plane: usize = chromas * values;
        let size: usize = hues * plane;
        let mut cells: Vec<u32> = Vec::new();
        let mut i: usize = 0;
        while i < size
            invariant
                i <= size,
                cells@.len() == i,
                forall|k: int| 0 <= k < i ==> cells@[k] == 0,
            decreases size - i,
        {
            cells.push(0);
            i += 1;
        }
        let t = OccupancyTable { hues, chromas, values, cells };
        assert forall|h: int, c: int, v: int| t.has_cell(h, c, v) implies t.entry(h, c, v) == 0 by {
            lemma_offset_in_bounds(hues as int, chromas as int, values as int, h, c, v);
        }
        t
    }

    /// The buffer offset of cell `(h, c, v)`, or `None` where a coordinate is at or beyond its
    /// axis's extent.
    pub fn index(&self, h: usize, c: usize, v: usize) -> (r: Option<usize>)
        requires
            self.wf(),
        ensures
            r is Some <==> self.has_cell(h as int, c as int, v as int),
            r is Some ==> r->0 == cell_offset(
                self.chroma_count(),
                self.value_count(),
                h as int,
                c as int,
                v as int,
            ),
    {
        if h >= self.hues {
            return None;
        }
        if c >= self.chromas {
            return None;
        }
        if v >= self.values {
            return None;
        }
        let size: usize = self.cells.len();
        proof {
            let (hs, cs, vs) = (self.hues as int, self.chromas as int, self.values as int);
            let len = size as int;
            lemma_offset_in_bounds(hs, cs, vs, h as int, c as int, v as int);
            assert(cs * vs <= len) by (nonlinear_arith)
                requires
                    len == hs * (cs * vs),
                    1 <= hs,
                    0 <= cs * vs,
            ;
            assert(0 <= h * (cs * vs) <= len) by (nonlinear_arith)
                requires
                    len == hs * (cs * vs),
                    0 <= h < hs,
                    0 <= cs * vs,
            ;
            assert(0 <= c * vs <= cs * vs) by (nonlinear_arith)
                requires
                    0 <= c < cs,
                    0 <= vs,
            ;
        }
        let plane: usize = self.chromas * self.values;
        Some(h * plane + c * self.values + v)
    }

    /// The region id at `(h, c, v)`, or `None` where the coordinates name no cell.
    pub fn get(&self, h: usize, c: usize, v: usize) -> (r: Option<u32>)
        requires
            self.wf(),
        ensures
            r is Some <==> self.has_cell(h as int, c as int, v as int),
            r is Some ==> r->0 == self.entry(h as int, c as int, v as int),
    {
        match self.index(h, c, v) {
            Some(idx) => {
                proof {
                    lemma_offset_in_bounds(
                        self.hues as int,
                        self.chromas as int,
                        self.values as int,
                        h as int,
                        c as int,
                        v as int,
                    );
                }
                Some(self.cells[idx])
            },
            None => None,
        }
    }

    /// Stores `id` at `(h, c, v)` and leaves every other cell as it was.
    pub fn put(&mut self, h: usize, c: usize, v: usize, id: u32)
        requires
            old(self).wf(),
            old(self).has_cell(h as int, c as int, v as int),
        ensures
            final(self).wf(),
            final(self).same_extents(old(self)),
            forall|h2: int, c2: int, v2: int|
                #![trigger final(self).entry(h2, c2, v2)]
                old(self).has_cell(h2, c2, v2) ==> final(self).entry(h2, c2, v2) == (if h2 == h
                    && c2 == c && v2 == v {
                    id
                } else {
                    old(self).entry(h2, c2, v2)
                }),
    {
        let idx = self.index(h, c, v).unwrap();
        proof {
            lemma_offset_in_bounds(
                self.hues as int,
                self.chromas as int,
                self.values as int,
                h as int,
                c as int,
                v as int,
            );
        }
        let ghost before = *self;
        self.cells.set(idx, id);
        proof {
            assert forall|h2: int, c2: int, v2: int|
                before.has_cell(h2, c2, v2) implies #[trigger] self.entry(h2, c2, v2) == (if h2 == h && c2 == c
                && v2 == v {
                id
            } else {
                before.entry(h2, c2, v2)
            }) by {
                lemma_offset_in_bounds(
                    self.hues as int,
                    self.chromas as int,
                    self.values as int,
                    h2,
                    c2,
                    v2,
                );
                if cell_offset(self.chromas as int, self.values as int, h2, c2, v2) == idx {
                    lemma_offset_injective(
                        self.hues as int,
                        self.chromas as int,
                        self.values as int,
                        h2,
                        c2,
                        v2,
                        h as int,
                        c as int,
                        v as int,
                    );
                }
            }
        }
    }
}

} // verus!
