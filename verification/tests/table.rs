use iscc_nbs::block::ColorBlock;
use iscc_nbs::partition::{claim_block, find_gap, Collision};
use iscc_nbs::table::OccupancyTable;

#[test]
fn offsets_are_hue_major() {
    let table = OccupancyTable::new(3, 4, 5);
    assert_eq!(table.index(0, 0, 0), Some(0));
    assert_eq!(table.index(0, 0, 4), Some(4));
    assert_eq!(table.index(0, 1, 0), Some(5));
    assert_eq!(table.index(1, 0, 0), Some(20));
    assert_eq!(table.index(2, 3, 4), Some(59));
}

#[test]
fn coordinates_at_the_extent_are_refused() {
    let table = OccupancyTable::new(3, 4, 5);
    assert_eq!(table.index(3, 0, 0), None);
    assert_eq!(table.index(0, 4, 0), None);
    assert_eq!(table.index(0, 0, 5), None);
    assert_eq!(table.get(3, 0, 0), None);
    assert_eq!((table.hues(), table.chromas(), table.values()), (3, 4, 5));
}

#[test]
fn put_changes_one_cell() {
    let mut table = OccupancyTable::new(2, 2, 2);
    table.put(1, 0, 1, 7);
    for h in 0..2 {
        for c in 0..2 {
            for v in 0..2 {
                let expected = if (h, c, v) == (1, 0, 1) { 7 } else { 0 };
                assert_eq!(table.get(h, c, v), Some(expected));
            }
        }
    }
}

#[test]
fn claim_walks_round_the_hue_axis() {
    let mut table = OccupancyTable::new(4, 1, 1);
    table.put(0, 0, 0, 8);
    let block = ColorBlock { color_id: 5, hues: 2..1, chromas: 0..1, values: 0..1 };
    assert_eq!(
        claim_block(&mut table, &block),
        Some(Collision { hue: 0, chroma: 0, value: 0, occupant: 8 })
    );
    assert_eq!(table.get(2, 0, 0), Some(5));
    assert_eq!(table.get(3, 0, 0), Some(5));
    assert_eq!(table.get(1, 0, 0), Some(0));
}

#[test]
fn claim_fills_exactly_the_block() {
    let mut table = OccupancyTable::new(3, 3, 3);
    let block = ColorBlock { color_id: 4, hues: 1..2, chromas: 0..2, values: 1..3 };
    assert_eq!(claim_block(&mut table, &block), None);
    for h in 0..3 {
        for c in 0..3 {
            for v in 0..3 {
                let inside = h == 1 && c < 2 && v >= 1;
                assert_eq!(table.get(h, c, v), Some(if inside { 4 } else { 0 }));
            }
        }
    }
    assert_eq!(find_gap(&table), Some((0, 0, 0)));
}

#[test]
fn gap_is_the_first_empty_cell_of_the_scan() {
    let mut table = OccupancyTable::new(2, 2, 2);
    for (h, c, v) in [(0, 0, 0), (0, 0, 1), (0, 1, 0), (1, 0, 0), (1, 1, 1)] {
        table.put(h, c, v, 1);
    }
    assert_eq!(find_gap(&table), Some((0, 1, 1)));
    table.put(0, 1, 1, 1);
    assert_eq!(find_gap(&table), Some((1, 0, 1)));
    table.put(1, 0, 1, 1);
    table.put(1, 1, 0, 1);
    assert_eq!(find_gap(&table), None);
}
