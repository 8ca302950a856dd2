use iscc_nbs::block::ColorBlock;
use iscc_nbs::partition::{check_partition, exceeds_memory, Boundary, PartitionError};
use iscc_nbs::validate::{validate_blocks, RangeDeclaration};

fn labels(items: &[&str]) -> Vec<String> {
    items.iter().map(|s| s.to_string()).collect()
}

fn decl(id: u32, h: (&str, &str), c: (&str, &str), v: (&str, &str)) -> RangeDeclaration {
    RangeDeclaration {
        color_id: id,
        hue_begin: h.0.to_string(),
        hue_end: h.1.to_string(),
        chroma_begin: c.0.to_string(),
        chroma_end: c.1.to_string(),
        value_begin: v.0.to_string(),
        value_end: v.1.to_string(),
    }
}

fn block(id: u32, h: (usize, usize), c: (usize, usize), v: (usize, usize)) -> ColorBlock {
    ColorBlock { color_id: id, hues: h.0..h.1, chromas: c.0..c.1, values: v.0..v.1 }
}

fn axes() -> (Vec<String>, Vec<String>, Vec<String>) {
    (
        labels(&["1R", "5R", "9R", "5Y"]),
        labels(&["0", "2", "6", "INF"]),
        labels(&["0", "5", "INF"]),
    )
}

/// Four hues, three chroma cells, two value cells, tiled by five declarations.
fn tiling() -> Vec<RangeDeclaration> {
    vec![
        decl(1, ("1R", "9R"), ("0", "INF"), ("0", "5")),
        decl(2, ("1R", "9R"), ("0", "INF"), ("5", "INF")),
        decl(3, ("9R", "1R"), ("0", "2"), ("0", "INF")),
        decl(4, ("9R", "1R"), ("2", "INF"), ("0", "5")),
        decl(3, ("9R", "1R"), ("2", "INF"), ("5", "INF")),
    ]
}

#[test]
fn complete_tiling_is_accepted_with_one_block_per_declaration() {
    let (hues, chromas, values) = axes();
    let decls = tiling();
    let blocks = validate_blocks(&decls, &hues, &chromas, &values).unwrap();
    assert_eq!(blocks.len(), decls.len());
    assert_eq!(
        blocks,
        vec![
            block(1, (0, 2), (0, 3), (0, 1)),
            block(2, (0, 2), (0, 3), (1, 2)),
            block(3, (2, 0), (0, 1), (0, 2)),
            block(4, (2, 0), (1, 3), (0, 1)),
            block(3, (2, 0), (1, 3), (1, 2)),
        ]
    );
}

#[test]
fn second_claim_of_a_cell_is_an_overlap_naming_both_ids() {
    let (hues, chromas, values) = axes();
    let mut decls = tiling();
    decls.insert(3, decl(9, ("5R", "5Y"), ("2", "6"), ("5", "INF")));
    assert_eq!(
        validate_blocks(&decls, &hues, &chromas, &values),
        Err(PartitionError::Overlap {
            declaration: 3,
            color_id: 9,
            occupant: 2,
            hue: 1,
            chroma: 1,
            value: 1,
        })
    );
}

#[test]
fn overlap_through_the_wrap_is_found() {
    let blocks = vec![
        block(5, (3, 1), (0, 1), (0, 1)),
        block(6, (0, 2), (0, 1), (0, 1)),
    ];
    assert_eq!(
        check_partition(&blocks, 4, 1, 1),
        Err(PartitionError::Overlap {
            declaration: 1,
            color_id: 6,
            occupant: 5,
            hue: 0,
            chroma: 0,
            value: 0,
        })
    );
}

#[test]
fn removing_a_declaration_leaves_a_gap_at_its_first_cell() {
    let (hues, chromas, values) = axes();
    let mut decls = tiling();
    decls.remove(3);
    assert_eq!(
        validate_blocks(&decls, &hues, &chromas, &values),
        Err(PartitionError::Gap { hue: 2, chroma: 1, value: 0 })
    );
}

#[test]
fn empty_range_claims_nothing_and_surfaces_as_gap() {
    let (hues, chromas, values) = axes();
    let mut decls = tiling();
    decls[0] = decl(1, ("1R", "9R"), ("2", "2"), ("0", "5"));
    assert_eq!(
        validate_blocks(&decls, &hues, &chromas, &values),
        Err(PartitionError::Gap { hue: 0, chroma: 0, value: 0 })
    );
}

#[test]
fn equal_hue_bounds_claim_no_hue() {
    let blocks = vec![block(1, (0, 0), (0, 1), (0, 1))];
    assert_eq!(
        check_partition(&blocks, 1, 1, 1),
        Err(PartitionError::Gap { hue: 0, chroma: 0, value: 0 })
    );
}

#[test]
fn unknown_label_is_reported_with_its_boundary() {
    let (hues, chromas, values) = axes();
    let mut decls = tiling();
    decls[1] = decl(2, ("1R", "9R"), ("0", "7"), ("5", "INF"));
    assert_eq!(
        validate_blocks(&decls, &hues, &chromas, &values),
        Err(PartitionError::UnknownLabel { declaration: 1, boundary: Boundary::ChromaEnd })
    );
}

#[test]
fn block_beyond_the_axes_is_out_of_range() {
    let blocks = vec![block(1, (0, 1), (0, 1), (0, 1)), block(2, (1, 2), (0, 1), (0, 1))];
    assert_eq!(
        check_partition(&blocks, 2, 1, 1),
        Err(PartitionError::OutOfRange { declaration: 1 })
    );
}

#[test]
fn no_declarations_over_no_cells_is_accepted() {
    let blocks: Vec<ColorBlock> = Vec::new();
    assert_eq!(check_partition(&blocks, 0, 3, 2), Ok(()));
    assert_eq!(
        check_partition(&blocks, 1, 1, 1),
        Err(PartitionError::Gap { hue: 0, chroma: 0, value: 0 })
    );
}

#[test]
fn space_beyond_memory_is_refused() {
    let blocks = vec![block(1, (0, 1), (0, 1), (0, 1))];
    assert_eq!(check_partition(&blocks, usize::MAX, 2, 1), Err(PartitionError::TooLarge));
    assert_eq!(check_partition(&blocks, 2, usize::MAX, usize::MAX), Err(PartitionError::TooLarge));
    assert!(exceeds_memory(3, usize::MAX / 2, 1));
    assert!(!exceeds_memory(2, usize::MAX / 2, 1));
    assert!(!exceeds_memory(0, usize::MAX, usize::MAX));
    assert_eq!(
        check_partition(&blocks, 0, usize::MAX, usize::MAX),
        Err(PartitionError::OutOfRange { declaration: 0 })
    );
    assert_eq!(check_partition(&Vec::new(), usize::MAX, usize::MAX, 0), Ok(()));
}
