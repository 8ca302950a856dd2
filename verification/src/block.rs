//! Region blocks: one rectangular piece of a region, as index ranges into the three axes.

use core::ops::Range;
use vstd::prelude::*;

verus! {

/// One hue-range × chroma-range × value-range block of the region `color_id`.
///
/// Each range holds a begin and an end index into its axis list. A hue range whose end lies
/// before its begin wraps through hue index 0.
#[derive(Debug, PartialEq, Eq)]
pub struct ColorBlock {
    pub color_id: u32,
    pub hues: Range<usize>,
    pub chromas: Range<usize>,
    pub values: Range<usize>,
}

impl Clone for ColorBlock {
    fn clone(&self) -> (r: Self)
        ensures
            r == *self,
    {
        ColorBlock {
            color_id: self.color_id,
            hues: Range { start: self.hues.start, end: self.hues.end },
            chromas: Range { start: self.chromas.start, end: self.chromas.end },
            values: Range { start: self.values.start, end: self.values.end },
        }
    }
}

impl ColorBlock {
    /// The indices name boundaries of axes with `hues` hue steps and `chromas` / `values` cells:
    /// a hue boundary is one of the steps, a chroma or value boundary may be the closing one.
    pub open spec fn fits(&self, hues: int, chromas: int, values: int) -> bool {
        &&& self.hues.start < hues
        &&& self.hues.end < hues
        &&& self.chromas.start <= chromas
        &&& self.chromas.end <= chromas
        &&& self.values.start <= values
        &&& self.values.end <= values
    }

    /// How many hue steps the block spans on a cyclic axis of `hues` steps.
    pub open spec fn hue_span(&self, hues: int) -> int {
        if self.hues.end < self.hues.start {
            self.hues.end + hues - self.hues.start
        } else {
            self.hues.end - self.hues.start
        }
    }

    /// How many steps hue `h` lies after the block's first hue, going round the axis.
    pub open spec fn hue_step(&self, hues: int, h: int) -> int {
        if h >= self.hues.start {
            h - self.hues.start
        } else {
            h + hues - self.hues.start
        }
    }

    /// The hue that lies `step` steps after the block's first hue, going round the axis.
    pub open spec fn hue_at(&self, hues: int, step: int) -> int {
        if self.hues.start + step < hues {
            self.hues.start + step
        } else {
            self.hues.start + step - hues
        }
    }

    /// Whether the block claims cell `(h, c, v)` on a cyclic hue axis of `hues` steps.
    pub open spec fn claims(&self, hues: int, h: int, c: int, v: int) -> bool {
        &&& 0 <= h < hues
        &&& self.hue_step(hues, h) < self.hue_span(hues)
        &&& self.chromas.start <= c < self.chromas.end
        &&& self.values.start <= v < self.values.end
    }

    /// Whether the block reaches cell `(h1, c1, v1)` before cell `(h2, c2, v2)`: it walks its
    /// hues from its first one round the axis, and for each hue its chromas and then its values
    /// upwards.
    pub open spec fn visits_before(
        &self,
        hues: int,
        h1: int,
        c1: int,
        v1: int,
        h2: int,
        c2: int,
        v2: int,
    ) -> bool {
        let s1 = self.hue_step(hues, h1);
        let s2 = self.hue_step(hues, h2);
        s1 < s2 || (s1 == s2 && (c1 < c2 || (c1 == c2 && v1 < v2)))
    }
}

/// The region id that holds cell `(h, c, v)` once `blocks` have been placed in order: that of
/// the last block that claims the cell, or 0 where none does.
pub open spec fn occupant(blocks: Seq<ColorBlock>, hues: int, h: int, c: int, v: int) -> u32
    decreases blocks.len(),
{
    if blocks.len() == 0 {
        0
    } else if blocks.last().claims(hues, h, c, v) {
        blocks.last().color_id
    } else {
        occupant(blocks.drop_last(), hues, h, c, v)
    }
}

/// Block `j` claims cell `(h, c, v)` although the blocks before it left a region there.
pub open spec fn collides(blocks: Seq<ColorBlock>, hues: int, j: int, h: int, c: int, v: int) -> bool {
    &&& 0 <= j < blocks.len()
    &&& blocks[j].claims(hues, h, c, v)
    &&& occupant(blocks.take(j), hues, h, c, v) != 0
}

/// Every cell of the `hues × chromas × values` space is held by a region.
pub open spec fn covers(blocks: Seq<ColorBlock>, hues: int, chromas: int, values: int) -> bool {
    forall|h: int, c: int, v: int|
        0 <= h < hues && 0 <= c < chromas && 0 <= v < values ==> occupant(blocks, hues, h, c, v)
            != 0
}

} // verus!
