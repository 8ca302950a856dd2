//! Placing region blocks into the occupancy table, and finding what they leave unfilled.

use crate::block::{collides, covers, occupant, ColorBlock};
use crate::table::{in_table, OccupancyTable};
use vstd::prelude::*;

verus! {

/// A cell that a block claimed although another region held it already.
#[derive(Clone, Copy, Debug, PartialEq, Eq)]
pub struct Collision {
    pub hue: usize,
    pub chroma: usize,
    pub value: usize,
    /// The region that held the cell.
    pub occupant: u32,
}

/// Whether `block` claims `(h2, c2, v2)` and reaches it before the position `(step, c, v)` of
/// its walk.
pub open spec fn reached(
    block: ColorBlock,
    hues: int,
    step: int,
    c: int,
    v: int,
    h2: int,
    c2: int,
    v2: int,
) -> bool {
    let s2 = block.hue_step(hues, h2);
    &&& block.claims(hues, h2, c2, v2)
    &&& (s2 < step || (s2 == step && (c2 < c || (c2 == c && v2 < v))))
}

/// `cur` is `orig` with the cells that `block` reaches before `(step, c, v)` handed to the
/// block's region, and `orig` held none of those cells.
pub open spec fn placed_up_to(
    cur: OccupancyTable,
    orig: OccupancyTable,
    block: ColorBlock,
    step: int,
    c: int,
    v: int,
) -> bool {
    let hues = orig.hue_count();
    &&& cur.wf()
    &&& cur.same_extents(&orig)
    &&& forall|h2: int, c2: int, v2: int|
        #![trigger cur.entry(h2, c2, v2)]
        orig.has_cell(h2, c2, v2) ==> cur.entry(h2, c2, v2) == (if reached(
            block,
            hues,
            step,
            c,
            v,
            h2,
            c2,
            v2,
        ) {
            block.color_id
        } else {
            orig.entry(h2, c2, v2)
        })
    &&& forall|h2: int, c2: int, v2: int|
        #![trigger orig.entry(h2, c2, v2)]
        reached(block, hues, step, c, v, h2, c2, v2) ==> orig.entry(h2, c2, v2) == 0
}

/// Hands every cell that `block` claims to the block's region, unless one of them is held
/// already: then the first such cell on the block's walk is returned, with its holder.
pub fn claim_block(table: &mut OccupancyTable, block: &ColorBlock) -> (r: Option<Collision>)
    requires
        old(table).wf(),
        block.fits(old(table).hue_count(), old(table).chroma_count(), old(table).value_count()),
    ensures
        final(table).wf(),
        final(table).same_extents(old(table)),
        r is None ==> {
            &&& forall|h: int, c: int, v: int|
                #![trigger final(table).entry(h, c, v)]
                old(table).has_cell(h, c, v) ==> final(table).entry(h, c, v) == (if block.claims(
                    old(table).hue_count(),
                    h,
                    c,
                    v,
                ) {
                    block.color_id
                } else {
                    old(table).entry(h, c, v)
                })
            &&& forall|h: int, c: int, v: int|
                #![trigger old(table).entry(h, c, v)]
                block.claims(old(table).hue_count(), h, c, v) ==> old(table).entry(h, c, v) == 0
        },
        r matches Some(x) ==> {
            &&& block.claims(old(table).hue_count(), x.hue as int, x.chroma as int, x.value as int)
            &&& x.occupant == old(table).entry(x.hue as int, x.chroma as int, x.value as int)
            &&& x.occupant != 0
            &&& forall|h: int, c: int, v: int|
                #![trigger old(table).entry(h, c, v)]
                block.claims(old(table).hue_count(), h, c, v) && block.visits_before(
                    old(table).hue_count(),
                    h,
                    c,
                    v,
                    x.hue as int,
                    x.chroma as int,
                    x.value as int,
                ) ==> old(table).entry(h, c, v) == 0
        },
{
    let ghost orig = *table;
    let hues: usize = table.hues();
    let first: usize = block.hues.start;
    let last: usize = block.hues.end;
    let span: usize = if last < first {
        last + (hues - first)
    } else {
        last - first
    };
    let mut step: usize = 0;
    while step < span
        invariant
            orig == *old(table),
            orig.wf(),
            hues == orig.hue_count(),
            first == block.hues.start,
            span == block.hue_span(hues as int),
            block.fits(orig.hue_count(), orig.chroma_count(), orig.value_count()),
            step <= span,
            placed_up_to(
                *table,
                orig,
                *block,
                step as int,
                block.chromas.start as int,
                block.values.start as int,
            ),
        decreases span - step,
    {
        let h: usize = if step < hues - first {
            first + step
        } else {
            step - (hues - first)
        };
        assert(h == block.hue_at(hues as int, step as int));
        assert(block.hue_step(hues as int, h as int) == step);
        let mut c: usize = block.chromas.start;
        while c < block.chromas.end
            invariant
                orig == *old(table),
                orig.wf(),
                hues == orig.hue_count(),
                block.fits(orig.hue_count(), orig.chroma_count(), orig.value_count()),
                step < block.hue_span(hues as int),
                h < hues,
                block.hue_step(hues as int, h as int) == step,
                block.chromas.start <= c,
                placed_up_to(*table, orig, *block, step as int, c as int, block.values.start as int),
            decreases block.chromas.end - c,
        {
            let mut v: usize = block.values.start;
            while v < block.values.end
                invariant
                    orig == *old(table),
                    orig.wf(),
                    hues == orig.hue_count(),
                    block.fits(orig.hue_count(), orig.chroma_count(), orig.value_count()),
                    step < block.hue_span(hues as int),
                    h < hues,
                    block.hue_step(hues as int, h as int) == step,
                    block.chromas.start <= c < block.chromas.end,
                    block.values.start <= v,
                    placed_up_to(*table, orig, *block, step as int, c as int, v as int),
                decreases block.values.end - v,
            {
                let held = table.get(h, c, v).unwrap();
                assert(held == orig.entry(h as int, c as int, v as int));
                if held != 0 {
                    return Some(Collision { hue: h, chroma: c, value: v, occupant: held });
                }
                table.put(h, c, v, block.color_id);
                v += 1;
            }
            c += 1;
        }
        step += 1;
    }
    None
}

/// Whether the scan over all cells (hues, then chromas, then values, each upwards) reaches
/// `(h1, c1, v1)` before `(h2, c2, v2)`.
pub open spec fn scans_before(h1: int, c1: int, v1: int, h2: int, c2: int, v2: int) -> bool {
    h1 < h2 || (h1 == h2 && (c1 < c2 || (c1 == c2 && v1 < v2)))
}

/// The first cell of the scan that no region holds, or `None` where every cell is held.
pub fn find_gap(table: &OccupancyTable) -> (r: Option<(usize, usize, usize)>)
    requires
        table.wf(),
    ensures
        r is None ==> forall|h: int, c: int, v: int|
            #![trigger table.entry(h, c, v)]
            table.has_cell(h, c, v) ==> table.entry(h, c, v) != 0,
        r matches Some(g) ==> {
            &&& table.has_cell(g.0 as int, g.1 as int, g.2 as int)
            &&& table.entry(g.0 as int, g.1 as int, g.2 as int) == 0
            &&& forall|h: int, c: int, v: int|
                #![trigger table.entry(h, c, v)]
                table.has_cell(h, c, v) && scans_before(h, c, v, g.0 as int, g.1 as int, g.2 as int)
                    ==> table.entry(h, c, v) != 0
        },
{
    let hues: usize = table.hues();
    let chromas: usize = table.chromas();
    let values: usize = table.values();
    let mut h: usize = 0;
    while h < hues
        invariant
            table.wf(),
            hues == table.hue_count(),
            chromas == table.chroma_count(),
            values == table.value_count(),
            h <= hues,
            forall|h2: int, c2: int, v2: int|
                #![trigger table.entry(h2, c2, v2)]
                table.has_cell(h2, c2, v2) && scans_before(h2, c2, v2, h as int, 0, 0)
                    ==> table.entry(h2, c2, v2) != 0,
        decreases hues - h,
    {
        let mut c: usize = 0;
        while c < chromas
            invariant
                table.wf(),
                hues == table.hue_count(),
                chromas == table.chroma_count(),
                values == table.value_count(),
                h < hues,
                c <= chromas,
                forall|h2: int, c2: int, v2: int|
                    #![trigger table.entry(h2, c2, v2)]
                    table.has_cell(h2, c2, v2) && scans_before(h2, c2, v2, h as int, c as int, 0)
                        ==> table.entry(h2, c2, v2) != 0,
            decreases chromas - c,
        {
            let mut v: usize = 0;
            while v < values
                invariant
                    table.wf(),
                    hues == table.hue_count(),
                    chromas == table.chroma_count(),
                    values == table.value_count(),
                    h < hues,
                    c < chromas,
                    v <= values,
                    forall|h2: int, c2: int, v2: int|
                        #![trigger table.entry(h2, c2, v2)]
                        table.has_cell(h2, c2, v2) && scans_before(
                            h2,
                            c2,
                            v2,
                            h as int,
                            c as int,
                            v as int,
                        ) ==> table.entry(h2, c2, v2) != 0,
                decreases values - v,
            {
                let held = table.get(h, c, v).unwrap();
                if held == 0 {
                    return Some((h, c, v));
                }
                v += 1;
            }
            c += 1;
        }
        h += 1;
    }
    None
}

/// One of the six boundary labels of a region declaration.
#[derive(Clone, Copy, Debug, PartialEq, Eq)]
pub enum Boundary {
    HueBegin,
    HueEnd,
    ChromaBegin,
    ChromaEnd,
    ValueBegin,
    ValueEnd,
}

/// Why a list of region declarations is no partition of the colour space.
#[derive(Clone, Copy, Debug, PartialEq, Eq)]
pub enum PartitionError {
    /// A boundary label of declaration `declaration` is on no axis.
    UnknownLabel { declaration: usize, boundary: Boundary },
    /// An index of block `declaration` names no boundary of its axis.
    OutOfRange { declaration: usize },
    /// Block `declaration`, of region `color_id`, claims a cell that region `occupant` holds.
    Overlap {
        declaration: usize,
        color_id: u32,
        occupant: u32,
        hue: usize,
        chroma: usize,
        value: usize,
    },
    /// No block claims the cell.
    Gap { hue: usize, chroma: usize, value: usize },
    /// The space has more cells than a table in memory can hold.
    TooLarge,
}

/// The blocks before block `j` fit the axes and none of them claims a held cell.
pub open spec fn sound_before(
    blocks: Seq<ColorBlock>,
    hues: int,
    chromas: int,
    values: int,
    j: int,
) -> bool {
    &&& forall|i: int| 0 <= i < j ==> (#[trigger] blocks[i]).fits(hues, chromas, values)
    &&& forall|i: int, h: int, c: int, v: int| i < j ==> !collides(blocks, hues, i, h, c, v)
}

/// Cell `(h, c, v)` is the first on block `j`'s walk that an earlier block has filled.
pub open spec fn first_collision(
    blocks: Seq<ColorBlock>,
    hues: int,
    j: int,
    h: int,
    c: int,
    v: int,
) -> bool {
    &&& collides(blocks, hues, j, h, c, v)
    &&& forall|h2: int, c2: int, v2: int|
        blocks[j].visits_before(hues, h2, c2, v2, h, c, v) ==> !collides(
            blocks,
            hues,
            j,
            h2,
            c2,
            v2,
        )
}

/// Cell `(h, c, v)` is the first of the scan that no region holds.
pub open spec fn first_gap(
    blocks: Seq<ColorBlock>,
    hues: int,
    chromas: int,
    values: int,
    h: int,
    c: int,
    v: int,
) -> bool {
    &&& in_table(hues, chromas, values, h, c, v)
    &&& occupant(blocks, hues, h, c, v) == 0
    &&& forall|h2: int, c2: int, v2: int|
        in_table(hues, chromas, values, h2, c2, v2) && scans_before(h2, c2, v2, h, c, v)
            ==> occupant(blocks, hues, h2, c2, v2) != 0
}

/// What checking `blocks` against a space of `hues × chromas × values` cells yields.
///
/// The blocks are placed in order. The first block that does not fit the axes, or that claims
/// a held cell, is reported, with the first such cell on its walk and the region that holds
/// it. Where every block is placed, the first cell of the scan that no region holds is
/// reported. Where there is none, the blocks partition the space.
pub open spec fn is_outcome(
    blocks: Seq<ColorBlock>,
    hues: int,
    chromas: int,
    values: int,
    r: Result<(), PartitionError>,
) -> bool {
    match r {
        Ok(_) => {
            &&& sound_before(blocks, hues, chromas, values, blocks.len() as int)
            &&& covers(blocks, hues, chromas, values)
        },
        Err(PartitionError::OutOfRange { declaration }) => {
            &&& declaration < blocks.len()
            &&& sound_before(blocks, hues, chromas, values, declaration as int)
            &&& !blocks[declaration as int].fits(hues, chromas, values)
        },
        Err(PartitionError::Overlap { declaration, color_id, occupant: held, hue, chroma, value }) => {
            &&& declaration < blocks.len()
            &&& sound_before(blocks, hues, chromas, values, declaration as int)
            &&& blocks[declaration as int].fits(hues, chromas, values)
            &&& first_collision(
                blocks,
                hues,
                declaration as int,
                hue as int,
                chroma as int,
                value as int,
            )
            &&& color_id == blocks[declaration as int].color_id
            &&& held == occupant(
                blocks.take(declaration as int),
                hues,
                hue as int,
                chroma as int,
                value as int,
            )
        },
        Err(PartitionError::Gap { hue, chroma, value }) => {
            &&& sound_before(blocks, hues, chromas, values, blocks.len() as int)
            &&& first_gap(blocks, hues, chromas, values, hue as int, chroma as int, value as int)
        },
        Err(PartitionError::UnknownLabel { .. }) => false,
        Err(PartitionError::TooLarge) => false,
    }
}

/// Whether a space of `hues × chromas × values` cells is too large for a table in memory.
pub open spec fn too_large(hues: int, chromas: int, values: int) -> bool {
    hues * (chromas * values) > usize::MAX
}

/// Whether a space of the given extents is too large for a table in memory.
pub fn exceeds_memory(hues: usize, chromas: usize, values: usize) -> (r: bool)
    ensures
        r == too_large(hues as int, chromas as int, values as int),
{
    if hues == 0 {
        assert(hues * (chromas * values) == 0) by (nonlinear_arith)
            requires
                hues == 0,
        ;
        return false;
    }
    match chromas.checked_mul(values) {
        None => {
            assert(hues * (chromas * values) > usize::MAX) by (nonlinear_arith)
                requires
                    hues >= 1,
                    chromas * values > usize::MAX,
            ;
            true
        },
        Some(plane) => hues.checked_mul(plane).is_none(),
    }
}

/// Whether the indices of `block` name boundaries of the axes.
pub fn block_fits(block: &ColorBlock, hues: usize, chromas: usize, values: usize) -> (r: bool)
    ensures
        r == block.fits(hues as int, chromas as int, values as int),
{
    block.hues.start < hues && block.hues.end < hues && block.chromas.start <= chromas
        && block.chromas.end <= chromas && block.values.start <= values && block.values.end
        <= values
}

/// Checks that `blocks` partition a space of `hues × chromas × values` cells: that no two of
/// them claim one cell and that every cell is claimed. A space too large for a table in
/// memory is refused before any block is looked at.
pub fn check_partition(blocks: &Vec<ColorBlock>, hues: usize, chromas: usize, values: usize) -> (r:
    Result<(), PartitionError>)
    ensures
        r == Err::<(), PartitionError>(PartitionError::TooLarge) <==> too_large(
            hues as int,
            chromas as int,
            values as int,
        ),
        !too_large(hues as int, chromas as int, values as int) ==> is_outcome(
            blocks@,
            hues as int,
            chromas as int,
            values as int,
            r,
        ),
{
    if exceeds_memory(hues, chromas, values) {
        return Err(PartitionError::TooLarge);
    }
    let mut table = OccupancyTable::new(hues, chromas, values);
    let mut j: usize = 0;
    while j < blocks.len()
        invariant
            j <= blocks.len(),
            !too_large(hues as int, chromas as int, values as int),
            table.wf(),
            table.hue_count() == hues,
            table.chroma_count() == chromas,
            table.value_count() == values,
            sound_before(blocks@, hues as int, chromas as int, values as int, j as int),
            forall|h: int, c: int, v: int|
                #![trigger table.entry(h, c, v)]
                table.has_cell(h, c, v) ==> table.entry(h, c, v) == occupant(
                    blocks@.take(j as int),
                    hues as int,
                    h,
                    c,
                    v,
                ),
        decreases blocks.len() - j,
    {
        let block = &blocks[j];
        if !block_fits(block, hues, chromas, values) {
            return Err(PartitionError::OutOfRange { declaration: j });
        }
        let ghost before = table;
        let ghost placed = blocks@.take(j as int);
        proof {
            assert(blocks@.take(j + 1).drop_last() =~= placed);
            assert(blocks@.take(j + 1).last() == *block);
        }
        match claim_block(&mut table, block) {
            Some(x) => {
                proof {
                    let hs = hues as int;
                    assert forall|h: int, c: int, v: int| block.claims(hs, h, c, v) implies (
                    #[trigger] before.entry(h, c, v)) == occupant(placed, hs, h, c, v) by {
                        assert(before.has_cell(h, c, v));
                    }
                    assert(first_collision(
                        blocks@,
                        hs,
                        j as int,
                        x.hue as int,
                        x.chroma as int,
                        x.value as int,
                    )) by {
                        assert forall|h2: int, c2: int, v2: int|
                            blocks@[j as int].visits_before(
                                hs,
                                h2,
                                c2,
                                v2,
                                x.hue as int,
                                x.chroma as int,
                                x.value as int,
                            ) implies !collides(blocks@, hs, j as int, h2, c2, v2) by {
                            if block.claims(hs, h2, c2, v2) {
                                assert(before.entry(h2, c2, v2) == 0);
                            }
                        }
                    }
                }
                return Err(
                    PartitionError::Overlap {
                        declaration: j,
                        color_id: block.color_id,
                        occupant: x.occupant,
                        hue: x.hue,
                        chroma: x.chroma,
                        value: x.value,
                    },
                );
            },
            None => {},
        }
        proof {
            assert forall|h: int, c: int, v: int| !collides(blocks@, hues as int, j as int, h, c, v) by {
                if block.claims(hues as int, h, c, v) {
                    assert(before.has_cell(h, c, v));
                    assert(before.entry(h, c, v) == 0);
                }
            }
        }
        j += 1;
    }
    proof {
        assert(blocks@.take(blocks@.len() as int) =~= blocks@);
    }
    let gap = find_gap(&table);
    proof {
        let (hs, cs, vs) = (hues as int, chromas as int, values as int);
        assert forall|h: int, c: int, v: int| in_table(hs, cs, vs, h, c, v) implies (
        #[trigger] occupant(blocks@, hs, h, c, v)) == table.entry(h, c, v) by {
            assert(table.has_cell(h, c, v));
        }
    }
    match gap {
        Some(g) => Err(PartitionError::Gap { hue: g.0, chroma: g.1, value: g.2 }),
        None => Ok(()),
    }
}

} // verus!
