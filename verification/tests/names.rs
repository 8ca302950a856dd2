use iscc_nbs::names::{add_name_to_map, validate_name_map, NameError, NameMap};

fn map_of(entries: &[(u32, &str, &str)]) -> NameMap {
    let mut map = NameMap::new();
    for (id, name, abbr) in entries {
        assert_eq!(add_name_to_map(&mut map, *id, name.to_string(), abbr.to_string()), Ok(()));
    }
    map
}

#[test]
fn distinct_dense_names_are_accepted() {
    let map = map_of(&[(2, "pink", "Pk"), (1, "red", "R"), (3, "orange", "O")]);
    assert_eq!(map.len(), 3);
    assert_eq!(validate_name_map(&map), Ok(()));
    assert_eq!(validate_name_map(&NameMap::new()), Ok(()));
}

#[test]
fn second_name_for_an_id_is_refused_and_changes_nothing() {
    let mut map = map_of(&[(1, "red", "R"), (2, "pink", "Pk")]);
    assert_eq!(
        add_name_to_map(&mut map, 2, "rose".to_string(), "Ro".to_string()),
        Err(NameError::ConflictingId { color_id: 2, holder: 1 })
    );
    assert_eq!(map.len(), 2);
    assert_eq!(map.entry(1).name, "pink");
    assert_eq!(map.find(2), Some(1));
    assert_eq!(map.find(3), None);
}

#[test]
fn shared_name_is_reported_with_the_first_pair() {
    let map = map_of(&[(1, "red", "R"), (2, "pink", "Pk"), (3, "red", "Rd"), (4, "pink", "P")]);
    assert_eq!(validate_name_map(&map), Err(NameError::DuplicateName { first: 0, second: 2 }));
}

#[test]
fn shared_abbreviation_is_reported() {
    let map = map_of(&[(1, "red", "R"), (2, "pink", "Pk"), (3, "rose", "Pk")]);
    assert_eq!(validate_name_map(&map), Err(NameError::DuplicateAbbr { first: 1, second: 2 }));
}

#[test]
fn name_is_reported_where_name_and_abbreviation_are_shared() {
    let map = map_of(&[(1, "red", "R"), (2, "red", "R")]);
    assert_eq!(validate_name_map(&map), Err(NameError::DuplicateName { first: 0, second: 1 }));
}

#[test]
fn least_missing_id_is_reported() {
    let map = map_of(&[(1, "red", "R"), (6, "pink", "Pk"), (4, "rose", "Ro")]);
    assert_eq!(validate_name_map(&map), Err(NameError::MissingId { color_id: 2, max_id: 6 }));
    let map = map_of(&[(3, "red", "R")]);
    assert_eq!(validate_name_map(&map), Err(NameError::MissingId { color_id: 1, max_id: 3 }));
}

#[test]
fn id_zero_is_no_gap() {
    let map = map_of(&[(0, "none", "N"), (1, "red", "R")]);
    assert_eq!(validate_name_map(&map), Ok(()));
}
