//! What the partition check guarantees, stated over the cells that the blocks claim.

use crate::block::{collides, covers, occupant, ColorBlock};
use crate::partition::{is_outcome, scans_before, sound_before, too_large, PartitionError};
use crate::table::in_table;
use crate::validate::{cell_count, is_validation, resolvable, resolved_blocks, RangeDeclaration};
use vstd::prelude::*;

verus! {

/// No cell is claimed by two of the blocks.
pub open spec fn disjoint(blocks: Seq<ColorBlock>, hues: int) -> bool {
    forall|i: int, j: int, h: int, c: int, v: int|
        0 <= i < j < blocks.len() && (#[trigger] blocks[i].claims(hues, h, c, v)) ==> !(
        #[trigger] blocks[j].claims(hues, h, c, v))
}

/// Some block claims cell `(h, c, v)`.
pub open spec fn claimed(blocks: Seq<ColorBlock>, hues: int, h: int, c: int, v: int) -> bool {
    exists|j: int| 0 <= j < blocks.len() && #[trigger] blocks[j].claims(hues, h, c, v)
}

/// Every block fits the axes and belongs to a region (its id is positive).
pub open spec fn well_formed(blocks: Seq<ColorBlock>, hues: int, chromas: int, values: int) -> bool {
    forall|j: int|
        0 <= j < blocks.len() ==> (#[trigger] blocks[j]).fits(hues, chromas, values)
            && blocks[j].color_id != 0
}

/// The blocks tile the space: they are well formed, no cell is claimed twice, and every cell
/// of the space is claimed.
pub open spec fn tiles(blocks: Seq<ColorBlock>, hues: int, chromas: int, values: int) -> bool {
    &&& well_formed(blocks, hues, chromas, values)
    &&& disjoint(blocks, hues)
    &&& forall|h: int, c: int, v: int|
        in_table(hues, chromas, values, h, c, v) ==> claimed(blocks, hues, h, c, v)
}

/// A cell that holds a region is claimed by a block of that region.
pub proof fn lemma_occupant_claims(blocks: Seq<ColorBlock>, hues: int, h: int, c: int, v: int)
    requires
        occupant(blocks, hues, h, c, v) != 0,
    ensures
        exists|j: int|
            0 <= j < blocks.len() && (#[trigger] blocks[j].claims(hues, h, c, v))
                && blocks[j].color_id == occupant(blocks, hues, h, c, v),
    decreases blocks.len(),
{
    if blocks.len() > 0 {
        let last = blocks.len() - 1;
        if blocks.last().claims(hues, h, c, v) {
            assert(blocks[last].claims(hues, h, c, v));
        } else {
            lemma_occupant_claims(blocks.drop_last(), hues, h, c, v);
            let j = choose|j: int|
                0 <= j < blocks.drop_last().len() && (#[trigger] blocks.drop_last()[j].claims(
                    hues,
                    h,
                    c,
                    v,
                )) && blocks.drop_last()[j].color_id == occupant(blocks.drop_last(), hues, h, c, v);
            assert(blocks[j].claims(hues, h, c, v));
        }
    }
}

/// A cell that no block claims holds no region.
pub proof fn lemma_unclaimed_is_empty(blocks: Seq<ColorBlock>, hues: int, h: int, c: int, v: int)
    requires
        !claimed(blocks, hues, h, c, v),
    ensures
        occupant(blocks, hues, h, c, v) == 0,
    decreases blocks.len(),
{
    if blocks.len() > 0 {
        let last = blocks.len() - 1;
        assert(!blocks[last].claims(hues, h, c, v));
        assert forall|j: int| 0 <= j < blocks.drop_last().len() implies !(
        #[trigger] blocks.drop_last()[j].claims(hues, h, c, v)) by {
            assert(!blocks[j].claims(hues, h, c, v));
        }
        lemma_unclaimed_is_empty(blocks.drop_last(), hues, h, c, v);
    }
}

/// A cell that only block `j` claims holds that block's region.
pub proof fn lemma_sole_claimant_holds(
    blocks: Seq<ColorBlock>,
    hues: int,
    j: int,
    h: int,
    c: int,
    v: int,
)
    requires
        0 <= j < blocks.len(),
        blocks[j].claims(hues, h, c, v),
        forall|k: int|
            0 <= k < blocks.len() && k != j ==> !(#[trigger] blocks[k].claims(hues, h, c, v)),
    ensures
        occupant(blocks, hues, h, c, v) == blocks[j].color_id,
    decreases blocks.len(),
{
    let last = blocks.len() - 1;
    if j != last {
        assert(!blocks[last].claims(hues, h, c, v));
        assert(blocks.drop_last()[j] == blocks[j]);
        assert forall|k: int| 0 <= k < blocks.drop_last().len() && k != j implies !(
        #[trigger] blocks.drop_last()[k].claims(hues, h, c, v)) by {
            assert(!blocks[k].claims(hues, h, c, v));
        }
        lemma_sole_claimant_holds(blocks.drop_last(), hues, j, h, c, v);
    }
}

/// A cell that a block claims holds a region, where every block belongs to one.
pub proof fn lemma_claimed_is_held(blocks: Seq<ColorBlock>, hues: int, h: int, c: int, v: int)
    requires
        claimed(blocks, hues, h, c, v),
        forall|j: int| 0 <= j < blocks.len() ==> (#[trigger] blocks[j]).color_id != 0,
    ensures
        occupant(blocks, hues, h, c, v) != 0,
    decreases blocks.len(),
{
    let j = choose|j: int| 0 <= j < blocks.len() && #[trigger] blocks[j].claims(hues, h, c, v);
    let last = blocks.len() - 1;
    if blocks.last().claims(hues, h, c, v) {
        assert(blocks[last].color_id != 0);
    } else {
        assert(blocks.drop_last()[j].claims(hues, h, c, v));
        assert forall|k: int| 0 <= k < blocks.drop_last().len() implies (
        #[trigger] blocks.drop_last()[k]).color_id != 0 by {
            assert(blocks[k].color_id != 0);
        }
        lemma_claimed_is_held(blocks.drop_last(), hues, h, c, v);
    }
}

/// Well-formed blocks of which no two share a cell are placed without a collision.
pub proof fn lemma_disjoint_is_sound(blocks: Seq<ColorBlock>, hues: int, chromas: int, values: int)
    requires
        well_formed(blocks, hues, chromas, values),
        disjoint(blocks, hues),
    ensures
        sound_before(blocks, hues, chromas, values, blocks.len() as int),
{
    assert forall|i: int, h: int, c: int, v: int| i < blocks.len() implies !collides(
        blocks,
        hues,
        i,
        h,
        c,
        v,
    ) by {
        if collides(blocks, hues, i, h, c, v) {
            lemma_occupant_claims(blocks.take(i), hues, h, c, v);
            let k = choose|k: int|
                0 <= k < blocks.take(i).len() && (#[trigger] blocks.take(i)[k].claims(hues, h, c, v))
                    && blocks.take(i)[k].color_id == occupant(blocks.take(i), hues, h, c, v);
            assert(blocks[k].claims(hues, h, c, v));
            assert(blocks[i].claims(hues, h, c, v));
        }
    }
}

/// Blocks that tile the space are placed without a collision and leave no cell unfilled.
pub proof fn lemma_tiling_is_sound(blocks: Seq<ColorBlock>, hues: int, chromas: int, values: int)
    requires
        tiles(blocks, hues, chromas, values),
    ensures
        sound_before(blocks, hues, chromas, values, blocks.len() as int),
        covers(blocks, hues, chromas, values),
{
    lemma_disjoint_is_sound(blocks, hues, chromas, values);
    assert forall|h: int, c: int, v: int|
        0 <= h < hues && 0 <= c < chromas && 0 <= v < values implies occupant(
        blocks,
        hues,
        h,
        c,
        v,
    ) != 0 by {
        assert(in_table(hues, chromas, values, h, c, v));
        assert(claimed(blocks, hues, h, c, v));
        lemma_claimed_is_held(blocks, hues, h, c, v);
    }
}

/// A set of blocks that tiles the whole space, with no cell claimed twice, is accepted.
pub proof fn lemma_tiling_accepted(
    blocks: Seq<ColorBlock>,
    hues: int,
    chromas: int,
    values: int,
    r: Result<(), PartitionError>,
)
    requires
        tiles(blocks, hues, chromas, values),
        is_outcome(blocks, hues, chromas, values, r),
    ensures
        r is Ok,
{
    lemma_tiling_is_sound(blocks, hues, chromas, values);
}

/// Accepted blocks tile the space, where every block belongs to a region: on success every
/// cell is held and no two blocks share a cell.
pub proof fn lemma_accepted_is_tiling(
    blocks: Seq<ColorBlock>,
    hues: int,
    chromas: int,
    values: int,
)
    requires
        is_outcome(blocks, hues, chromas, values, Ok(())),
        forall|j: int| 0 <= j < blocks.len() ==> (#[trigger] blocks[j]).color_id != 0,
    ensures
        tiles(blocks, hues, chromas, values),
{
    assert forall|i: int, j: int, h: int, c: int, v: int|
        0 <= i < j < blocks.len() && (#[trigger] blocks[i].claims(hues, h, c, v)) implies !(
    #[trigger] blocks[j].claims(hues, h, c, v)) by {
        if blocks[j].claims(hues, h, c, v) {
            assert(blocks.take(j)[i].claims(hues, h, c, v));
            assert(claimed(blocks.take(j), hues, h, c, v));
            assert forall|k: int| 0 <= k < blocks.take(j).len() implies (
            #[trigger] blocks.take(j)[k]).color_id != 0 by {
                assert(blocks[k].color_id != 0);
            }
            lemma_claimed_is_held(blocks.take(j), hues, h, c, v);
            assert(collides(blocks, hues, j, h, c, v));
        }
    }
    assert forall|h: int, c: int, v: int| in_table(hues, chromas, values, h, c, v) implies claimed(
        blocks,
        hues,
        h,
        c,
        v,
    ) by {
        assert(occupant(blocks, hues, h, c, v) != 0);
        lemma_occupant_claims(blocks, hues, h, c, v);
    }
}

/// A further block that claims a cell of an earlier one is rejected as an overlap that names
/// both regions: the further block's, and that of the earlier block which holds the reported
/// cell.
pub proof fn lemma_overlap_reported(
    blocks: Seq<ColorBlock>,
    hues: int,
    chromas: int,
    values: int,
    extra: ColorBlock,
    r: Result<(), PartitionError>,
)
    requires
        well_formed(blocks, hues, chromas, values),
        disjoint(blocks, hues),
        extra.fits(hues, chromas, values),
        exists|h: int, c: int, v: int|
            extra.claims(hues, h, c, v) && claimed(blocks, hues, h, c, v),
        is_outcome(blocks.push(extra), hues, chromas, values, r),
    ensures
        r matches Err(PartitionError::Overlap { declaration, color_id, occupant: held, hue, chroma, value })
            && declaration == blocks.len() && color_id == extra.color_id && extra.claims(
            hues,
            hue as int,
            chroma as int,
            value as int,
        ) && exists|i: int|
            0 <= i < blocks.len() && (#[trigger] blocks[i].claims(
                hues,
                hue as int,
                chroma as int,
                value as int,
            )) && blocks[i].color_id == held,
{
    let all = blocks.push(extra);
    let n = blocks.len() as int;
    assert(all.take(n) =~= blocks);
    lemma_disjoint_is_sound(blocks, hues, chromas, values);
    assert forall|i: int, h: int, c: int, v: int| i < n implies !collides(all, hues, i, h, c, v) by {
        if 0 <= i {
            assert(all.take(i) =~= blocks.take(i));
            assert(all[i] == blocks[i]);
            assert(!collides(blocks, hues, i, h, c, v));
        }
    }
    let (h0, c0, v0) = choose|h: int, c: int, v: int|
        extra.claims(hues, h, c, v) && claimed(blocks, hues, h, c, v);
    lemma_claimed_is_held(blocks, hues, h0, c0, v0);
    assert(collides(all, hues, n, h0, c0, v0));
    match r {
        Err(PartitionError::Overlap { declaration, color_id, occupant: held, hue, chroma, value }) => {
            assert(collides(all, hues, declaration as int, hue as int, chroma as int, value as int));
            assert(declaration == n);
            lemma_occupant_claims(blocks, hues, hue as int, chroma as int, value as int);
        },
        Err(PartitionError::OutOfRange { declaration }) => {
            if declaration < n {
                assert(all[declaration as int] == blocks[declaration as int]);
            }
        },
        _ => {},
    }
}

/// Taking one block that claims a cell out of a tiling leaves a gap: the first cell of the
/// scan that the block claimed is reported.
pub proof fn lemma_removal_leaves_gap(
    blocks: Seq<ColorBlock>,
    hues: int,
    chromas: int,
    values: int,
    k: int,
    r: Result<(), PartitionError>,
)
    requires
        tiles(blocks, hues, chromas, values),
        0 <= k < blocks.len(),
        exists|h: int, c: int, v: int| blocks[k].claims(hues, h, c, v),
        is_outcome(blocks.remove(k), hues, chromas, values, r),
    ensures
        r matches Err(PartitionError::Gap { hue, chroma, value }) && blocks[k].claims(
            hues,
            hue as int,
            chroma as int,
            value as int,
        ) && forall|h: int, c: int, v: int|
            blocks[k].claims(hues, h, c, v) ==> !scans_before(
                h,
                c,
                v,
                hue as int,
                chroma as int,
                value as int,
            ),
{
    let rest = blocks.remove(k);
    let at = |i: int| if i < k { i } else { i + 1 };
    assert forall|i: int| 0 <= i < rest.len() implies #[trigger] rest[i] == blocks[at(i)] by {}
    assert(well_formed(rest, hues, chromas, values)) by {
        assert forall|j: int| 0 <= j < rest.len() implies (#[trigger] rest[j]).fits(
            hues,
            chromas,
            values,
        ) && rest[j].color_id != 0 by {
            assert(rest[j] == blocks[at(j)]);
        }
    }
    assert(disjoint(rest, hues)) by {
        assert forall|i: int, j: int, h: int, c: int, v: int|
            0 <= i < j < rest.len() && (#[trigger] rest[i].claims(hues, h, c, v)) implies !(
        #[trigger] rest[j].claims(hues, h, c, v)) by {
            assert(rest[i] == blocks[at(i)]);
            assert(rest[j] == blocks[at(j)]);
            assert(blocks[at(i)].claims(hues, h, c, v));
            if rest[j].claims(hues, h, c, v) {
                assert(blocks[at(j)].claims(hues, h, c, v));
            }
        }
    }
    lemma_disjoint_is_sound(rest, hues, chromas, values);
    // A cell is held after the removal exactly where another block than `k` claimed it.
    assert forall|h: int, c: int, v: int| in_table(hues, chromas, values, h, c, v) implies (occupant(
        rest,
        hues,
        h,
        c,
        v,
    ) == 0 <==> blocks[k].claims(hues, h, c, v)) by {
        assert(claimed(blocks, hues, h, c, v));
        let j = choose|j: int| 0 <= j < blocks.len() && #[trigger] blocks[j].claims(hues, h, c, v);
        if j == k {
            assert forall|i: int| 0 <= i < rest.len() implies !(#[trigger] rest[i].claims(
                hues,
                h,
                c,
                v,
            )) by {
                assert(rest[i] == blocks[at(i)]);
                if at(i) < k {
                    assert(blocks[at(i)].claims(hues, h, c, v) ==> !blocks[k].claims(hues, h, c, v));
                } else {
                    assert(blocks[k].claims(hues, h, c, v) ==> !blocks[at(i)].claims(hues, h, c, v));
                }
            }
            lemma_unclaimed_is_empty(rest, hues, h, c, v);
        } else {
            let i = if j < k { j } else { j - 1 };
            assert(rest[i] == blocks[at(i)]);
            assert(rest[i].claims(hues, h, c, v));
            lemma_claimed_is_held(rest, hues, h, c, v);
            if j < k {
                assert(blocks[j].claims(hues, h, c, v) ==> !blocks[k].claims(hues, h, c, v));
            } else {
                assert(blocks[k].claims(hues, h, c, v) ==> !blocks[j].claims(hues, h, c, v));
            }
        }
    }
    let (h0, c0, v0) = choose|h: int, c: int, v: int| blocks[k].claims(hues, h, c, v);
    assert(in_table(hues, chromas, values, h0, c0, v0));
    assert(occupant(rest, hues, h0, c0, v0) == 0);
    match r {
        Err(PartitionError::Gap { hue, chroma, value }) => {
            assert forall|h: int, c: int, v: int| blocks[k].claims(hues, h, c, v) implies !scans_before(
                h,
                c,
                v,
                hue as int,
                chroma as int,
                value as int,
            ) by {
                assert(in_table(hues, chromas, values, h, c, v));
                assert(occupant(rest, hues, h, c, v) == 0);
            }
        },
        _ => {},
    }
}

/// The outcome of the check is determined by the blocks and the extents of the space.
pub proof fn lemma_outcome_unique(
    blocks: Seq<ColorBlock>,
    hues: int,
    chromas: int,
    values: int,
    r1: Result<(), PartitionError>,
    r2: Result<(), PartitionError>,
)
    requires
        is_outcome(blocks, hues, chromas, values, r1),
        is_outcome(blocks, hues, chromas, values, r2),
    ensures
        r1 == r2,
{
    let n = blocks.len() as int;
    // How far the placement got: the index of the block that failed, or the number of blocks.
    let stop = |r: Result<(), PartitionError>|
        match r {
            Err(PartitionError::OutOfRange { declaration }) => declaration as int,
            Err(PartitionError::Overlap { declaration, .. }) => declaration as int,
            _ => n,
        };
    let s1 = stop(r1);
    let s2 = stop(r2);
    assert(sound_before(blocks, hues, chromas, values, s1));
    assert(sound_before(blocks, hues, chromas, values, s2));
    // A block that failed is neither sound nor behind the point that the other outcome reached.
    assert(s1 == s2) by {
        if s1 < s2 {
            lemma_failed_block_is_unsound(blocks, hues, chromas, values, r1, s2);
        }
        if s2 < s1 {
            lemma_failed_block_is_unsound(blocks, hues, chromas, values, r2, s1);
        }
    }
    match (r1, r2) {
        (
            Err(PartitionError::Overlap { declaration: d1, hue: h1, chroma: c1, value: v1, .. }),
            Err(PartitionError::Overlap { hue: h2, chroma: c2, value: v2, .. }),
        ) => {
            // Neither cell comes before the other on the block's walk, so they are one cell.
            let b = blocks[d1 as int];
            assert(collides(blocks, hues, d1 as int, h1 as int, c1 as int, v1 as int));
            assert(collides(blocks, hues, d1 as int, h2 as int, c2 as int, v2 as int));
            assert(b.hue_step(hues, h1 as int) == b.hue_step(hues, h2 as int));
        },
        (Ok(first), Ok(second)) => {
            assert(first == ());
            assert(second == ());
        },
        _ => {},
    }
}

/// Where the check failed at a block, the placement is not sound beyond that block.
proof fn lemma_failed_block_is_unsound(
    blocks: Seq<ColorBlock>,
    hues: int,
    chromas: int,
    values: int,
    r: Result<(), PartitionError>,
    beyond: int,
)
    requires
        is_outcome(blocks, hues, chromas, values, r),
        sound_before(blocks, hues, chromas, values, beyond),
        beyond <= blocks.len(),
    ensures
        match r {
            Err(PartitionError::OutOfRange { declaration }) => beyond <= declaration,
            Err(PartitionError::Overlap { declaration, .. }) => beyond <= declaration,
            _ => true,
        },
{
    match r {
        Err(PartitionError::OutOfRange { declaration }) => {
            if declaration < beyond {
                assert(blocks[declaration as int].fits(hues, chromas, values));
            }
        },
        Err(PartitionError::Overlap { declaration, hue, chroma, value, .. }) => {
            if declaration < beyond {
                assert(collides(blocks, hues, declaration as int, hue as int, chroma as int, value as int));
            }
        },
        _ => {},
    }
}

/// Declarations whose labels are all on the axes and whose blocks tile the space validate,
/// where the space fits in memory, and the result holds one block for each declaration.
pub proof fn lemma_tiling_validates(
    decls: Seq<RangeDeclaration>,
    hues: Seq<String>,
    chromas: Seq<String>,
    values: Seq<String>,
    r: Result<Vec<ColorBlock>, PartitionError>,
)
    requires
        forall|i: int| 0 <= i < decls.len() ==> resolvable(#[trigger] decls[i], hues, chromas, values),
        tiles(
            resolved_blocks(decls, hues, chromas, values),
            hues.len() as int,
            cell_count(chromas.len() as int),
            cell_count(values.len() as int),
        ),
        !too_large(
            hues.len() as int,
            cell_count(chromas.len() as int),
            cell_count(values.len() as int),
        ),
        is_validation(decls, hues, chromas, values, r),
    ensures
        r matches Ok(out) && out@.len() == decls.len() && out@ == resolved_blocks(
            decls,
            hues,
            chromas,
            values,
        ),
{
    let blocks = resolved_blocks(decls, hues, chromas, values);
    let hs = hues.len() as int;
    let cs = cell_count(chromas.len() as int);
    let vs = cell_count(values.len() as int);
    match r {
        Ok(_) => {},
        Err(PartitionError::UnknownLabel { declaration, boundary }) => {
            assert(resolvable(decls[declaration as int], hues, chromas, values));
        },
        Err(PartitionError::TooLarge) => {},
        Err(e) => {
            lemma_tiling_accepted(blocks, hs, cs, vs, Err(e));
        },
    }
}

} // verus!
