//! What the mean colour of a region is computed from, as far as integers and labels decide it:
//! which regions there are, which boundaries enclose a block, and how long chroma is reduced.

use crate::axis::{deinfinite, deinfinite_spec};
use crate::block::ColorBlock;
use vstd::prelude::*;

verus! {

/// Why no mean colour can be computed for every region.
#[derive(Clone, Copy, Debug, PartialEq, Eq)]
pub enum RegionError {
    /// Block `block` belongs to no region: its id is 0.
    NoRegion { block: usize },
    /// No block contributes to region `color_id`, so its volume is zero.
    DegenerateRegion { color_id: u32 },
}

/// Whether one of `blocks` belongs to region `id`.
pub open spec fn contributes(blocks: Seq<ColorBlock>, id: u32) -> bool {
    exists|i: int| 0 <= i < blocks.len() && (#[trigger] blocks[i]).color_id == id
}

/// The largest region id among `blocks`, 0 where there is no block.
pub open spec fn max_color_id(blocks: Seq<ColorBlock>) -> u32
    decreases blocks.len(),
{
    if blocks.len() == 0 {
        0
    } else {
        let rest = max_color_id(blocks.drop_last());
        if blocks.last().color_id > rest {
            blocks.last().color_id
        } else {
            rest
        }
    }
}

/// What counting the regions of `blocks` yields: the first block without a region; else the
/// least id from 1 up to the largest to which no block contributes; else the largest id,
/// which is then the number of regions.
pub open spec fn is_region_count(blocks: Seq<ColorBlock>, r: Result<u32, RegionError>) -> bool {
    match r {
        Ok(count) => {
            &&& count == max_color_id(blocks)
            &&& forall|i: int| 0 <= i < blocks.len() ==> 1 <= (#[trigger] blocks[i]).color_id <= count
            &&& forall|id: u32| 1 <= id <= count ==> contributes(blocks, id)
        },
        Err(RegionError::NoRegion { block }) => {
            &&& block < blocks.len()
            &&& blocks[block as int].color_id == 0
            &&& forall|i: int| 0 <= i < block ==> (#[trigger] blocks[i]).color_id != 0
        },
        Err(RegionError::DegenerateRegion { color_id }) => {
            &&& !contributes(blocks, 0)
            &&& 1 <= color_id < max_color_id(blocks)
            &&& !contributes(blocks, color_id)
            &&& forall|id: u32| 1 <= id < color_id ==> contributes(blocks, id)
        },
    }
}

/// The largest id bounds all ids, and some block has it unless it is 0.
pub proof fn lemma_max_color_id(blocks: Seq<ColorBlock>)
    ensures
        forall|i: int| 0 <= i < blocks.len() ==> (#[trigger] blocks[i]).color_id <= max_color_id(blocks),
        max_color_id(blocks) != 0 ==> contributes(blocks, max_color_id(blocks)),
    decreases blocks.len(),
{
    if blocks.len() > 0 {
        let rest = blocks.drop_last();
        lemma_max_color_id(rest);
        assert forall|i: int| 0 <= i < blocks.len() implies (#[trigger] blocks[i]).color_id
            <= max_color_id(blocks) by {
            if i < rest.len() {
                assert(rest[i] == blocks[i]);
            }
        }
        if max_color_id(blocks) != 0 {
            if blocks.last().color_id > max_color_id(rest) {
                assert(blocks[blocks.len() - 1].color_id == max_color_id(blocks));
            } else {
                let i = choose|i: int|
                    0 <= i < rest.len() && (#[trigger] rest[i]).color_id == max_color_id(rest);
                assert(blocks[i].color_id == max_color_id(blocks));
            }
        }
    }
}

/// Whether one of `blocks` belongs to region `id`.
pub fn has_block(blocks: &Vec<ColorBlock>, id: u32) -> (r: bool)
    ensures
        r == contributes(blocks@, id),
{
    let mut i: usize = 0;
    while i < blocks.len()
        invariant
            i <= blocks.len(),
            forall|k: int| 0 <= k < i ==> (#[trigger] blocks@[k]).color_id != id,
        decreases blocks.len() - i,
    {
        if blocks[i].color_id == id {
            return true;
        }
        i += 1;
    }
    false
}

/// Counts the regions of `blocks`: the ids must be positive and dense, so that every id from
/// 1 up to the largest has a block to take its mean colour from.
pub fn count_regions(blocks: &Vec<ColorBlock>) -> (r: Result<u32, RegionError>)
    ensures
        is_region_count(blocks@, r),
{
    let mut largest: u32 = 0;
    let mut i: usize = 0;
    while i < blocks.len()
        invariant
            i <= blocks.len(),
            largest == max_color_id(blocks@.take(i as int)),
            forall|k: int| 0 <= k < i ==> (#[trigger] blocks@[k]).color_id != 0,
        decreases blocks.len() - i,
    {
        if blocks[i].color_id == 0 {
            return Err(RegionError::NoRegion { block: i });
        }
        proof {
            assert(blocks@.take(i + 1).drop_last() =~= blocks@.take(i as int));
            assert(blocks@.take(i + 1).last() == blocks@[i as int]);
        }
        if blocks[i].color_id > largest {
            largest = blocks[i].color_id;
        }
        i += 1;
    }
    proof {
        assert(blocks@.take(blocks@.len() as int) =~= blocks@);
        lemma_max_color_id(blocks@);
    }
    let mut id: u32 = 1;
    while id < largest
        invariant
            1 <= id,
            largest == max_color_id(blocks@),
            contributes(blocks@, largest) || largest == 0,
            forall|k: int| 0 <= k < blocks@.len() ==> (#[trigger] blocks@[k]).color_id != 0,
            forall|k: u32| 1 <= k < id ==> contributes(blocks@, k),
        decreases largest - id,
    {
        if !has_block(blocks, id) {
            return Err(RegionError::DegenerateRegion { color_id: id });
        }
        id += 1;
    }
    proof {
        lemma_max_color_id(blocks@);
    }
    Ok(largest)
}

/// The accumulator slot of region `color_id` among `count` regions: regions are numbered
/// from 1, slots from 0.
pub fn region_slot(color_id: u32, count: u32) -> (slot: Option<usize>)
    ensures
        slot is Some <==> 1 <= color_id <= count,
        slot matches Some(i) ==> i == color_id - 1,
{
    if color_id >= 1 && color_id <= count {
        Some((color_id - 1) as usize)
    } else {
        None
    }
}

/// The labels of the six boundaries that enclose a block, the closing label of the chroma
/// and value axes replaced by its finite stand-in.
#[derive(Debug, PartialEq, Eq)]
pub struct BlockBounds {
    pub hue_start: String,
    pub hue_end: String,
    pub chroma_start: String,
    pub chroma_end: String,
    pub value_start: String,
    pub value_end: String,
}

/// Whether each index of `block` names a label of its axis.
pub open spec fn within_axes(block: ColorBlock, hues: int, chromas: int, values: int) -> bool {
    &&& block.hues.start < hues
    &&& block.hues.end < hues
    &&& block.chromas.start < chromas
    &&& block.chromas.end < chromas
    &&& block.values.start < values
    &&& block.values.end < values
}

/// Whether `bounds` holds the labels at the indices of `block`.
pub open spec fn is_bounds_of(
    bounds: BlockBounds,
    block: ColorBlock,
    hues: Seq<String>,
    chromas: Seq<String>,
    values: Seq<String>,
) -> bool {
    &&& bounds.hue_start@ == hues[block.hues.start as int]@
    &&& bounds.hue_end@ == hues[block.hues.end as int]@
    &&& bounds.chroma_start@ == chromas[block.chromas.start as int]@
    &&& bounds.chroma_end@ == deinfinite_spec(chromas[block.chromas.end as int]@)
    &&& bounds.value_start@ == values[block.values.start as int]@
    &&& bounds.value_end@ == deinfinite_spec(values[block.values.end as int]@)
}

/// Looks up the labels of the boundaries of `block`, or returns `None` where an index of the
/// block names no label of its axis.
pub fn block_bounds(
    block: &ColorBlock,
    hues: &Vec<String>,
    chromas: &Vec<String>,
    values: &Vec<String>,
) -> (r: Option<BlockBounds>)
    ensures
        r is Some <==> within_axes(
            *block,
            hues@.len() as int,
            chromas@.len() as int,
            values@.len() as int,
        ),
        r matches Some(bounds) ==> is_bounds_of(bounds, *block, hues@, chromas@, values@),
{
    if block.hues.start >= hues.len() || block.hues.end >= hues.len() {
        return None;
    }
    if block.chromas.start >= chromas.len() || block.chromas.end >= chromas.len() {
        return None;
    }
    if block.values.start >= values.len() || block.values.end >= values.len() {
        return None;
    }
    Some(
        BlockBounds {
            hue_start: hues[block.hues.start].clone(),
            hue_end: hues[block.hues.end].clone(),
            chroma_start: chromas[block.chromas.start].clone(),
            chroma_end: deinfinite(chromas[block.chromas.end].clone()),
            value_start: values[block.values.start].clone(),
            value_end: deinfinite(values[block.values.end].clone()),
        },
    )
}

/// How often the chroma of one colour is reduced at most. Further reductions would change no
/// chroma any more.
pub const MAX_REDUCTIONS: u32 = 20000;

/// What to do with a candidate colour.
#[derive(Clone, Copy, Debug, PartialEq, Eq)]
pub enum GamutStep {
    /// The colour can be displayed: take it.
    Accept,
    /// Reduce its chroma and convert again.
    Reduce,
    /// Chroma has been reduced as often as it may be: clamp the colour into the gamut.
    Clamp,
}

/// The search for a colour that can be displayed: counts how often chroma has been reduced.
#[derive(Clone, Copy, Debug, PartialEq, Eq)]
pub struct GamutReduction {
    reductions: u32,
}

impl GamutReduction {
    /// How often chroma has been reduced so far.
    pub closed spec fn reductions(&self) -> int {
        self.reductions as int
    }

    /// Reductions that are left.
    pub open spec fn budget(&self) -> int {
        MAX_REDUCTIONS - self.reductions()
    }

    /// The count never exceeds the limit.
    pub open spec fn wf(&self) -> bool {
        0 <= self.reductions() <= MAX_REDUCTIONS
    }

    /// A search that has reduced nothing yet.
    pub fn new() -> (search: GamutReduction)
        ensures
            search.wf(),
            search.reductions() == 0,
    {
        GamutReduction { reductions: 0 }
    }

    /// Decides on the next step, given whether the present candidate can be displayed: a
    /// candidate that can is accepted; else chroma is reduced once more while that is
    /// allowed, and the colour is clamped when it is not. Only a reduction goes on with the
    /// search, and each uses up one of the reductions that are left.
    pub fn next(&mut self, within_gamut: bool) -> (step: GamutStep)
        requires
            old(self).wf(),
        ensures
            final(self).wf(),
            step == (if within_gamut {
                GamutStep::Accept
            } else if old(self).budget() > 0 {
                GamutStep::Reduce
            } else {
                GamutStep::Clamp
            }),
            final(self).budget() == old(self).budget() - (if step == GamutStep::Reduce {
                1int
            } else {
                0int
            }),
    {
        if within_gamut {
            GamutStep::Accept
        } else if self.reductions < MAX_REDUCTIONS {
            self.reductions += 1;
            GamutStep::Reduce
        } else {
            GamutStep::Clamp
        }
    }
}

} // verus!
