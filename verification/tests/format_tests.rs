use gymnarium_base::format::{Format, FormatError};
use gymnarium_base::space::{
    DimensionBoundaries, DimensionValue, Position, Space, SpaceError,
};

fn two_key_format() -> Format {
    let mut format = Format::default();
    format.add("sensors.position".to_string(), vec![3]).unwrap();
    format.add("front_cam".to_string(), vec![2, 2, 3]).unwrap();
    format
}

#[test]
fn add_registers_disjoint_ranges() {
    let format = two_key_format();
    assert!(format.contains(&"sensors.position".to_string()));
    assert!(format.contains(&"front_cam".to_string()));
    assert!(!format.contains(&"rear_cam".to_string()));
    assert_eq!(format.shape_of(&"sensors.position".to_string()), Some(&vec![3]));
    assert_eq!(format.shape_of(&"front_cam".to_string()), Some(&vec![2, 2, 3]));
    assert_eq!(format.shape_of(&"rear_cam".to_string()), None);
    assert_eq!(
        format.keys(),
        vec!["sensors.position".to_string(), "front_cam".to_string()]
    );
}

#[test]
fn add_rejects_duplicate_keys() {
    let mut format = two_key_format();
    let result = format.add("front_cam".to_string(), vec![5]);
    assert_eq!(
        result,
        Err(FormatError::KeyAlreadyExistsInFormat("front_cam".to_string()))
    );
    // the failed call changed nothing
    assert_eq!(format.shape_of(&"front_cam".to_string()), Some(&vec![2, 2, 3]));
    assert_eq!(format.new_space().get_boundaries().len(), 15);
}

#[test]
fn new_space_is_filled_with_placeholder_boundaries() {
    let format = two_key_format();
    let space = format.new_space();
    assert_eq!(space.dimensions(), &vec![15]);
    for cell in space.get_boundaries() {
        assert_eq!(*cell, DimensionBoundaries::INTEGER(0, 0));
    }
}

#[test]
fn subspace_round_trips_and_leaves_other_regions_alone() {
    let format = two_key_format();
    let mut space = format.new_space();

    let first = Space::simple(vec![
        DimensionBoundaries::INTEGER(1, 2),
        DimensionBoundaries::INTEGER(3, 4),
        DimensionBoundaries::INTEGER(5, 6),
    ]);
    let second = Space::all(DimensionBoundaries::INTEGER(7, 8), vec![2, 2, 3]);

    format
        .set_subspace(&mut space, &"sensors.position".to_string(), first.clone())
        .unwrap();
    format
        .set_subspace(&mut space, &"front_cam".to_string(), second.clone())
        .unwrap();

    let first_back = format
        .get_subspace(&space, &"sensors.position".to_string())
        .unwrap();
    assert_eq!(first_back.get_boundaries(), first.get_boundaries());
    assert_eq!(first_back.dimensions(), &vec![3]);

    // overwriting the first region again leaves the second one untouched
    let replacement = Space::simple(vec![
        DimensionBoundaries::INTEGER(9, 9),
        DimensionBoundaries::INTEGER(9, 9),
        DimensionBoundaries::INTEGER(9, 9),
    ]);
    format
        .set_subspace(&mut space, &"sensors.position".to_string(), replacement.clone())
        .unwrap();
    let second_back = format.get_subspace(&space, &"front_cam".to_string()).unwrap();
    assert_eq!(second_back.get_boundaries(), second.get_boundaries());
    assert_eq!(second_back.dimensions(), &vec![2, 2, 3]);
    let replaced_back = format
        .get_subspace(&space, &"sensors.position".to_string())
        .unwrap();
    assert_eq!(replaced_back.get_boundaries(), replacement.get_boundaries());
}

#[test]
fn set_subspace_rejects_wrong_cell_counts() {
    let format = two_key_format();
    let mut space = format.new_space();
    let wrong = Space::simple(vec![
        DimensionBoundaries::INTEGER(0, 1),
        DimensionBoundaries::INTEGER(0, 1),
    ]);
    let result = format.set_subspace(&mut space, &"sensors.position".to_string(), wrong);
    assert_eq!(
        result,
        Err(FormatError::GivenSpaceDoesNotFit { needed: 3, given: 2 })
    );
    // the failed write changed nothing
    for cell in space.get_boundaries() {
        assert_eq!(*cell, DimensionBoundaries::INTEGER(0, 0));
    }
}

#[test]
fn subspace_access_reports_missing_keys() {
    let format = two_key_format();
    let mut space = format.new_space();
    assert_eq!(
        format.get_subspace(&space, &"rear_cam".to_string()),
        Err(FormatError::KeyNotFoundInFormat("rear_cam".to_string()))
    );
    let sub = Space::simple_all(DimensionBoundaries::INTEGER(0, 1), 3);
    assert_eq!(
        format.set_subspace(&mut space, &"rear_cam".to_string(), sub),
        Err(FormatError::KeyNotFoundInFormat("rear_cam".to_string()))
    );
}

#[test]
fn boundaries_cell_access_within_a_region() {
    let format = two_key_format();
    let mut space = format.new_space();
    let marker = DimensionBoundaries::INTEGER(-1, 1);
    format
        .set_boundaries(&mut space, &"front_cam".to_string(), &[1, 1, 2], marker)
        .unwrap();
    assert_eq!(
        format.get_boundaries(&space, &"front_cam".to_string(), &[1, 1, 2]),
        Ok(marker)
    );
    // offset of [1, 1, 2] within the region's shape [2, 2, 3] is 7; the
    // region itself starts at flat cell 3
    assert_eq!(space.get_boundaries()[10], marker);
}

#[test]
fn boundaries_cell_access_rejects_bad_indices() {
    let format = two_key_format();
    let mut space = format.new_space();
    assert_eq!(
        format.get_boundaries(&space, &"front_cam".to_string(), &[2, 0, 0]),
        Err(FormatError::SpaceIndexError(SpaceError::IndexOutOfBounds))
    );
    assert_eq!(
        format.set_boundaries(
            &mut space,
            &"front_cam".to_string(),
            &[0, 0, 3],
            DimensionBoundaries::INTEGER(0, 1)
        ),
        Err(FormatError::SpaceIndexError(SpaceError::IndexOutOfBounds))
    );
    assert_eq!(
        format.get_boundaries(&space, &"rear_cam".to_string(), &[0]),
        Err(FormatError::KeyNotFoundInFormat("rear_cam".to_string()))
    );
}

#[test]
fn subposition_round_trips_and_leaves_other_regions_alone() {
    let format = two_key_format();
    let mut position = Position::all(DimensionValue::INTEGER(0), vec![15]);

    let first = Position::simple(vec![
        DimensionValue::INTEGER(10),
        DimensionValue::INTEGER(11),
        DimensionValue::INTEGER(12),
    ]);
    format
        .set_subposition(&mut position, &"sensors.position".to_string(), first.clone())
        .unwrap();

    let back = format
        .get_subposition(&position, &"sensors.position".to_string())
        .unwrap();
    assert_eq!(back.get_values(), first.get_values());
    assert_eq!(back.dimensions(), &vec![3]);

    let other = format
        .get_subposition(&position, &"front_cam".to_string())
        .unwrap();
    for cell in other.get_values() {
        assert_eq!(*cell, DimensionValue::INTEGER(0));
    }
}

#[test]
fn set_subposition_rejects_wrong_cell_counts() {
    let format = two_key_format();
    let mut position = Position::all(DimensionValue::INTEGER(0), vec![15]);
    let wrong = Position::simple(vec![DimensionValue::INTEGER(1)]);
    assert_eq!(
        format.set_subposition(&mut position, &"front_cam".to_string(), wrong),
        Err(FormatError::GivenSpaceDoesNotFit { needed: 12, given: 1 })
    );
}

#[test]
fn value_cell_access_within_a_region() {
    let format = two_key_format();
    let mut position = Position::all(DimensionValue::INTEGER(0), vec![15]);
    let marker = DimensionValue::INTEGER(99);
    format
        .set_value(&mut position, &"sensors.position".to_string(), &[2], marker)
        .unwrap();
    assert_eq!(
        format.get_value(&position, &"sensors.position".to_string(), &[2]),
        Ok(marker)
    );
    assert_eq!(position.get_values()[2], marker);
    assert_eq!(
        format.get_value(&position, &"sensors.position".to_string(), &[3]),
        Err(FormatError::PositionIndexError(SpaceError::IndexOutOfBounds))
    );
    assert_eq!(
        format.set_value(
            &mut position,
            &"rear_cam".to_string(),
            &[0],
            DimensionValue::INTEGER(1)
        ),
        Err(FormatError::KeyNotFoundInFormat("rear_cam".to_string()))
    );
}

#[test]
fn format_mediates_an_irregular_structure() {
    let mut format = Format::default();
    format.add("ext_controller".to_string(), vec![3]).unwrap();
    format.add("inner_state.charge".to_string(), vec![1]).unwrap();
    let mut space = format.new_space();
    format
        .set_subspace(
            &mut space,
            &"ext_controller".to_string(),
            Space::simple(vec![
                DimensionBoundaries::from(4),
                DimensionBoundaries::from(1),
                DimensionBoundaries::from(1),
            ]),
        )
        .unwrap();
    format
        .set_subspace(
            &mut space,
            &"inner_state.charge".to_string(),
            Space::simple(vec![DimensionBoundaries::from(99)]),
        )
        .unwrap();
    assert_eq!(
        format.get_subspace(&space, &"ext_controller".to_string()),
        Ok(Space::simple(vec![
            DimensionBoundaries::INTEGER(0, 4),
            DimensionBoundaries::INTEGER(0, 1),
            DimensionBoundaries::INTEGER(0, 1),
        ]))
    );
    let position = space.sample();
    assert!(space.contains(&position));
    let charge = format
        .get_value(&position, &"inner_state.charge".to_string(), &[0])
        .unwrap();
    match charge {
        DimensionValue::INTEGER(v) => assert!((0..=99).contains(&v)),
        DimensionValue::FLOAT(_) => panic!("charge must be discrete"),
    }
}
