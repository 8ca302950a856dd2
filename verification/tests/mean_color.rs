use iscc_nbs::axis::deinfinite;
use iscc_nbs::block::ColorBlock;
use iscc_nbs::mean_color::{
    block_bounds, count_regions, has_block, region_slot, BlockBounds, GamutReduction, GamutStep,
    RegionError, MAX_REDUCTIONS,
};

fn block(id: u32, h: (usize, usize), c: (usize, usize), v: (usize, usize)) -> ColorBlock {
    ColorBlock { color_id: id, hues: h.0..h.1, chromas: c.0..c.1, values: v.0..v.1 }
}

fn labels(items: &[&str]) -> Vec<String> {
    items.iter().map(|s| s.to_string()).collect()
}

#[test]
fn sentinel_becomes_its_finite_stand_in() {
    assert_eq!(deinfinite("INF".to_string()), "9999");
    assert_eq!(deinfinite("9999".to_string()), "9999");
    assert_eq!(deinfinite("inf".to_string()), "inf");
    assert_eq!(deinfinite("INF ".to_string()), "INF ");
    assert_eq!(deinfinite("1.2".to_string()), "1.2");
    assert_eq!(deinfinite(String::new()), "");
}

#[test]
fn dense_ids_are_counted() {
    let blocks = vec![
        block(2, (0, 1), (0, 1), (0, 1)),
        block(1, (0, 1), (0, 1), (0, 1)),
        block(3, (0, 1), (0, 1), (0, 1)),
        block(2, (0, 1), (0, 1), (0, 1)),
    ];
    assert_eq!(count_regions(&blocks), Ok(3));
    assert_eq!(count_regions(&Vec::new()), Ok(0));
    assert!(has_block(&blocks, 3));
    assert!(!has_block(&blocks, 4));
}

#[test]
fn unreferenced_id_is_degenerate() {
    let blocks = vec![block(4, (0, 1), (0, 1), (0, 1)), block(1, (0, 1), (0, 1), (0, 1))];
    assert_eq!(count_regions(&blocks), Err(RegionError::DegenerateRegion { color_id: 2 }));
}

#[test]
fn block_without_region_is_refused() {
    let blocks = vec![block(1, (0, 1), (0, 1), (0, 1)), block(0, (0, 1), (0, 1), (0, 1))];
    assert_eq!(count_regions(&blocks), Err(RegionError::NoRegion { block: 1 }));
}

#[test]
fn slots_are_ids_less_one() {
    assert_eq!(region_slot(1, 267), Some(0));
    assert_eq!(region_slot(267, 267), Some(266));
    assert_eq!(region_slot(0, 267), None);
    assert_eq!(region_slot(268, 267), None);
}

#[test]
fn bounds_are_the_labels_at_the_indices() {
    let hues = labels(&["1R", "5R", "9R"]);
    let chromas = labels(&["0", "0.7", "INF"]);
    let values = labels(&["0", "4.5", "INF"]);
    assert_eq!(
        block_bounds(&block(1, (2, 0), (1, 2), (0, 1)), &hues, &chromas, &values),
        Some(BlockBounds {
            hue_start: "9R".to_string(),
            hue_end: "1R".to_string(),
            chroma_start: "0.7".to_string(),
            chroma_end: "9999".to_string(),
            value_start: "0".to_string(),
            value_end: "4.5".to_string(),
        })
    );
    assert_eq!(block_bounds(&block(1, (0, 3), (0, 1), (0, 1)), &hues, &chromas, &values), None);
    assert_eq!(block_bounds(&block(1, (0, 1), (0, 3), (0, 1)), &hues, &chromas, &values), None);
    assert_eq!(block_bounds(&block(1, (0, 1), (0, 1), (3, 1)), &hues, &chromas, &values), None);
}

#[test]
fn displayable_colour_is_accepted_at_once() {
    let mut search = GamutReduction::new();
    assert_eq!(search.next(true), GamutStep::Accept);
}

#[test]
fn reduction_stops_at_the_limit() {
    let mut search = GamutReduction::new();
    let mut reductions = 0;
    loop {
        match search.next(false) {
            GamutStep::Reduce => reductions += 1,
            step => {
                assert_eq!(step, GamutStep::Clamp);
                break;
            }
        }
    }
    assert_eq!(reductions, MAX_REDUCTIONS);
    assert_eq!(MAX_REDUCTIONS, 20000);
    assert_eq!(search.next(false), GamutStep::Clamp);
    assert_eq!(search.next(true), GamutStep::Accept);
}
