//! Region declarations by boundary label, and their validation against the three axes.

use crate::block::ColorBlock;
use crate::partition::{check_partition, is_outcome, too_large, Boundary, PartitionError};
use core::ops::Range;
use vstd::prelude::*;

verus! {

/// One declared block: a region id and the labels of the six boundaries that enclose it.
#[derive(Clone, Debug, PartialEq, Eq)]
pub struct RangeDeclaration {
    pub color_id: u32,
    pub hue_begin: String,
    pub hue_end: String,
    pub chroma_begin: String,
    pub chroma_end: String,
    pub value_begin: String,
    pub value_end: String,
}

/// Index `i` is the first place of `label` on `axis`.
pub open spec fn is_position(axis: Seq<String>, label: Seq<char>, i: int) -> bool {
    &&& 0 <= i < axis.len()
    &&& axis[i]@ == label
    &&& forall|k: int| 0 <= k < i ==> (#[trigger] axis[k])@ != label
}

/// Whether `label` is one of the labels of `axis`.
pub open spec fn on_axis(axis: Seq<String>, label: Seq<char>) -> bool {
    exists|i: int| 0 <= i < axis.len() && (#[trigger] axis[i])@ == label
}

/// The first place of `label` on `axis`, where it is on the axis.
pub open spec fn index_of(axis: Seq<String>, label: Seq<char>) -> int {
    choose|i: int| is_position(axis, label, i)
}

/// A label has one first place at most.
pub proof fn lemma_position_unique(axis: Seq<String>, label: Seq<char>, i: int)
    requires
        is_position(axis, label, i),
    ensures
        index_of(axis, label) == i,
        on_axis(axis, label),
{
    let j = index_of(axis, label);
    assert(is_position(axis, label, j));
    if j < i {
        assert(axis[j]@ != label);
    }
    if i < j {
        assert(axis[i]@ != label);
    }
}

/// The first place of `label` on `axis`, or `None` where the axis does not hold it.
pub fn position(axis: &Vec<String>, label: &String) -> (r: Option<usize>)
    ensures
        r is Some <==> on_axis(axis@, label@),
        r matches Some(i) ==> is_position(axis@, label@, i as int) && i == index_of(
            axis@,
            label@,
        ),
{
    let mut i: usize = 0;
    while i < axis.len()
        invariant
            i <= axis.len(),
            forall|k: int| 0 <= k < i ==> (#[trigger] axis@[k])@ != label@,
        decreases axis.len() - i,
    {
        if axis[i] == *label {
            proof {
                lemma_position_unique(axis@, label@, i as int);
            }
            return Some(i);
        }
        i += 1;
    }
    None
}

/// Number of cells along a chroma or value axis of `len` labels: the last label closes the
/// axis and opens no cell.
pub open spec fn cell_count(len: int) -> int {
    if len == 0 {
        0
    } else {
        len - 1
    }
}

/// The label that `decl` gives for `boundary`.
pub open spec fn boundary_label(decl: RangeDeclaration, boundary: Boundary) -> Seq<char> {
    match boundary {
        Boundary::HueBegin => decl.hue_begin@,
        Boundary::HueEnd => decl.hue_end@,
        Boundary::ChromaBegin => decl.chroma_begin@,
        Boundary::ChromaEnd => decl.chroma_end@,
        Boundary::ValueBegin => decl.value_begin@,
        Boundary::ValueEnd => decl.value_end@,
    }
}

/// The axis on which `boundary` is looked up.
pub open spec fn boundary_axis(
    boundary: Boundary,
    hues: Seq<String>,
    chromas: Seq<String>,
    values: Seq<String>,
) -> Seq<String> {
    match boundary {
        Boundary::HueBegin | Boundary::HueEnd => hues,
        Boundary::ChromaBegin | Boundary::ChromaEnd => chromas,
        Boundary::ValueBegin | Boundary::ValueEnd => values,
    }
}

/// The order in which the boundaries of a declaration are looked up.
pub open spec fn boundary_rank(boundary: Boundary) -> int {
    match boundary {
        Boundary::HueBegin => 0,
        Boundary::HueEnd => 1,
        Boundary::ChromaBegin => 2,
        Boundary::ChromaEnd => 3,
        Boundary::ValueBegin => 4,
        Boundary::ValueEnd => 5,
    }
}

/// Whether the label that `decl` gives for `boundary` is on its axis.
pub open spec fn finds(
    decl: RangeDeclaration,
    boundary: Boundary,
    hues: Seq<String>,
    chromas: Seq<String>,
    values: Seq<String>,
) -> bool {
    on_axis(boundary_axis(boundary, hues, chromas, values), boundary_label(decl, boundary))
}

/// Whether each of the six labels of `decl` is on its axis.
pub open spec fn resolvable(
    decl: RangeDeclaration,
    hues: Seq<String>,
    chromas: Seq<String>,
    values: Seq<String>,
) -> bool {
    forall|b: Boundary| finds(decl, b, hues, chromas, values)
}

/// The block that `decl` declares: each label replaced by its first place on its axis.
pub open spec fn resolve(
    decl: RangeDeclaration,
    hues: Seq<String>,
    chromas: Seq<String>,
    values: Seq<String>,
) -> ColorBlock {
    ColorBlock {
        color_id: decl.color_id,
        hues: Range {
            start: index_of(hues, decl.hue_begin@) as usize,
            end: index_of(hues, decl.hue_end@) as usize,
        },
        chromas: Range {
            start: index_of(chromas, decl.chroma_begin@) as usize,
            end: index_of(chromas, decl.chroma_end@) as usize,
        },
        values: Range {
            start: index_of(values, decl.value_begin@) as usize,
            end: index_of(values, decl.value_end@) as usize,
        },
    }
}

/// Replaces the six labels of `decl` by their places on the axes. Where a label is on no
/// axis, the first such boundary is returned.
pub fn resolve_declaration(
    decl: &RangeDeclaration,
    hues: &Vec<String>,
    chromas: &Vec<String>,
    values: &Vec<String>,
) -> (r: Result<ColorBlock, Boundary>)
    ensures
        r is Ok <==> resolvable(*decl, hues@, chromas@, values@),
        r matches Ok(block) ==> block == resolve(*decl, hues@, chromas@, values@) && block.fits(
            hues@.len() as int,
            cell_count(chromas@.len() as int),
            cell_count(values@.len() as int),
        ),
        r matches Err(boundary) ==> {
            &&& !finds(*decl, boundary, hues@, chromas@, values@)
            &&& forall|b: Boundary|
                boundary_rank(b) < boundary_rank(boundary) ==> finds(
                    *decl,
                    b,
                    hues@,
                    chromas@,
                    values@,
                )
        },
{
    let hue_begin = match position(hues, &decl.hue_begin) {
        Some(i) => i,
        None => {
            assert(!finds(*decl, Boundary::HueBegin, hues@, chromas@, values@));
            return Err(Boundary::HueBegin);
        },
    };
    let hue_end = match position(hues, &decl.hue_end) {
        Some(i) => i,
        None => {
            assert(!finds(*decl, Boundary::HueEnd, hues@, chromas@, values@));
            return Err(Boundary::HueEnd);
        },
    };
    let chroma_begin = match position(chromas, &decl.chroma_begin) {
        Some(i) => i,
        None => {
            assert(!finds(*decl, Boundary::ChromaBegin, hues@, chromas@, values@));
            return Err(Boundary::ChromaBegin);
        },
    };
    let chroma_end = match position(chromas, &decl.chroma_end) {
        Some(i) => i,
        None => {
            assert(!finds(*decl, Boundary::ChromaEnd, hues@, chromas@, values@));
            return Err(Boundary::ChromaEnd);
        },
    };
    let value_begin = match position(values, &decl.value_begin) {
        Some(i) => i,
        None => {
            assert(!finds(*decl, Boundary::ValueBegin, hues@, chromas@, values@));
            return Err(Boundary::ValueBegin);
        },
    };
    let value_end = match position(values, &decl.value_end) {
        Some(i) => i,
        None => {
            assert(!finds(*decl, Boundary::ValueEnd, hues@, chromas@, values@));
            return Err(Boundary::ValueEnd);
        },
    };
    proof {
        assert forall|b: Boundary| finds(*decl, b, hues@, chromas@, values@) by {
            match b {
                Boundary::HueBegin => {},
                Boundary::HueEnd => {},
                Boundary::ChromaBegin => {},
                Boundary::ChromaEnd => {},
                Boundary::ValueBegin => {},
                Boundary::ValueEnd => {},
            }
        }
    }
    Ok(
        ColorBlock {
            color_id: decl.color_id,
            hues: Range { start: hue_begin, end: hue_end },
            chromas: Range { start: chroma_begin, end: chroma_end },
            values: Range { start: value_begin, end: value_end },
        },
    )
}

/// The blocks that `decls` declare, in the order of the declarations.
pub open spec fn resolved_blocks(
    decls: Seq<RangeDeclaration>,
    hues: Seq<String>,
    chromas: Seq<String>,
    values: Seq<String>,
) -> Seq<ColorBlock> {
    Seq::new(decls.len(), |i: int| resolve(decls[i], hues, chromas, values))
}

/// What validating `decls` against the three axes yields.
///
/// The labels are looked up first, declaration by declaration: the first label that is on no
/// axis is reported. The space has one cell per hue label and one per chroma and value label
/// but the closing one; where that is too large for a table in memory, it is refused. The
/// blocks are then checked as `is_outcome` says. On success the result holds one block for
/// each declaration, in order.
pub open spec fn is_validation(
    decls: Seq<RangeDeclaration>,
    hues: Seq<String>,
    chromas: Seq<String>,
    values: Seq<String>,
    r: Result<Vec<ColorBlock>, PartitionError>,
) -> bool {
    let blocks = resolved_blocks(decls, hues, chromas, values);
    let hs = hues.len() as int;
    let cs = cell_count(chromas.len() as int);
    let vs = cell_count(values.len() as int);
    match r {
        Ok(out) => {
            &&& forall|i: int|
                0 <= i < decls.len() ==> resolvable(#[trigger] decls[i], hues, chromas, values)
            &&& !too_large(hs, cs, vs)
            &&& out@ == blocks
            &&& is_outcome(blocks, hs, cs, vs, Ok(()))
        },
        Err(PartitionError::UnknownLabel { declaration, boundary }) => {
            &&& declaration < decls.len()
            &&& forall|i: int|
                0 <= i < declaration ==> resolvable(#[trigger] decls[i], hues, chromas, values)
            &&& !finds(decls[declaration as int], boundary, hues, chromas, values)
            &&& forall|b: Boundary|
                boundary_rank(b) < boundary_rank(boundary) ==> finds(
                    decls[declaration as int],
                    b,
                    hues,
                    chromas,
                    values,
                )
        },
        Err(PartitionError::TooLarge) => {
            &&& forall|i: int|
                0 <= i < decls.len() ==> resolvable(#[trigger] decls[i], hues, chromas, values)
            &&& too_large(hs, cs, vs)
        },
        Err(e) => {
            &&& forall|i: int|
                0 <= i < decls.len() ==> resolvable(#[trigger] decls[i], hues, chromas, values)
            &&& !too_large(hs, cs, vs)
            &&& is_outcome(blocks, hs, cs, vs, Err(e))
        },
    }
}

/// Number of cells along a chroma or value axis.
pub fn axis_cells(axis: &Vec<String>) -> (n: usize)
    ensures
        n == cell_count(axis@.len() as int),
{
    if axis.len() == 0 {
        0
    } else {
        axis.len() - 1
    }
}

/// Validates the declared blocks against the axes: every label must be on its axis, no two
/// blocks may claim one cell, and every cell must be claimed. Returns the blocks, one for each
/// declaration, or the first defect found.
pub fn validate_blocks(
    declarations: &Vec<RangeDeclaration>,
    hues: &Vec<String>,
    chromas: &Vec<String>,
    values: &Vec<String>,
) -> (r: Result<Vec<ColorBlock>, PartitionError>)
    ensures
        is_validation(declarations@, hues@, chromas@, values@, r),
{
    let mut blocks: Vec<ColorBlock> = Vec::new();
    let mut i: usize = 0;
    while i < declarations.len()
        invariant
            i <= declarations.len(),
            blocks@.len() == i,
            forall|k: int|
                0 <= k < i ==> resolvable(#[trigger] declarations@[k], hues@, chromas@, values@),
            forall|k: int|
                0 <= k < i ==> blocks@[k] == resolve(declarations@[k], hues@, chromas@, values@),
        decreases declarations.len() - i,
    {
        match resolve_declaration(&declarations[i], hues, chromas, values) {
            Ok(block) => {
                blocks.push(block);
            },
            Err(boundary) => {
                return Err(PartitionError::UnknownLabel { declaration: i, boundary });
            },
        }
        i += 1;
    }
    assert(blocks@ =~= resolved_blocks(declarations@, hues@, chromas@, values@));
    match check_partition(&blocks, hues.len(), axis_cells(chromas), axis_cells(values)) {
        Ok(_) => Ok(blocks),
        Err(e) => Err(e),
    }
}

} // verus!
