use schematic2bls::blockland::Brick;
use schematic2bls::blockland::mapping::BrickBuilder;
use schematic2bls::extract_bricks_from;
use schematic2bls::largest_cube::LargestCube;

/// Four unit cubes stacked vertically form one bundle of four, labeled
/// bottom, top, bottom, top.
#[test]
fn four_stacked_unit_cubes_form_one_bundle() {
    let mut builder = BrickBuilder::new();
    for z in 1..=4 {
        builder.with_brick(Brick::new((1, 1, z), 1));
    }

    let bundles = builder.get_1x_cube_bundles();
    assert_eq!(bundles.len(), 1);
    assert_eq!(bundles[0].len(), 4);

    builder.map_1x_cube_bundles(bundles.clone());
    let expected = [true, false, true, false];
    for (pos, brick_idx) in bundles[0].iter().enumerate() {
        assert_eq!(builder.bricks[*brick_idx].bottom_1x_cube, expected[pos]);
    }
}

/// Four unit cubes side by side form four bundles of one, each labeled
/// bottom.
#[test]
fn four_side_by_side_unit_cubes_form_four_bundles() {
    let mut builder = BrickBuilder::new();
    for x in 1..=4 {
        builder.with_brick(Brick::new((x, 1, 1), 1));
    }

    let bundles = builder.get_1x_cube_bundles();
    assert_eq!(bundles.len(), 4);
    for bundle in &bundles {
        assert_eq!(bundle.len(), 1);
    }

    builder.map_1x_cube_bundles(bundles.clone());
    for brick in &builder.bricks {
        assert!(brick.bottom_1x_cube);
    }
}

/// The placement formula: the center is half the anchor less a quarter
/// of the size, and the height of a unit brick sits three tenths below
/// half its anchor.  Positions are in twentieths of a placement unit.
#[test]
fn placement_coordinates_are_exact() {
    let mut builder = BrickBuilder::new();
    builder.with_brick(Brick::new((4, 4, 4), 4));
    builder.with_brick(Brick::new((6, 2, 8), 2));
    builder.with_brick(Brick::new((1, 1, 1), 1));
    let placed = builder.build();

    // (4 - 4/2) / 2 = 1, and 4/2 - 4/4 = 1: one placement unit each way.
    assert_eq!(placed[0].position, (20, 20, 20));
    assert_eq!(placed[0].size, 4);
    assert!(placed[0].floored);

    // (6 - 1) / 2 = 2.5, (2 - 1) / 2 = 0.5, 8/2 - 2/4 = 3.5.
    assert_eq!(placed[1].position, (50, 10, 70));
    assert!(!placed[1].floored);

    // (1 - 0.5) / 2 = 0.25, and 1/2 - 0.3 = 0.2.
    assert_eq!(placed[2].position, (5, 5, 4));
    assert!(placed[2].floored);
    assert!(placed[2].bottom_1x_cube);
}

/// The whole pipeline tail: extracted unit cubes come back as paired
/// half-height bricks in extraction order.
#[test]
fn extract_bricks_labels_stacked_units() {
    let cubes = vec![
        LargestCube { side_length: 1, indexes: (1, 1, 4) },
        LargestCube { side_length: 1, indexes: (1, 1, 3) },
        LargestCube { side_length: 1, indexes: (1, 1, 2) },
        LargestCube { side_length: 1, indexes: (1, 1, 1) },
    ];
    let placed = extract_bricks_from(cubes);
    assert_eq!(placed.len(), 4);

    // In sorted (ascending z) order the labels alternate from bottom;
    // the bricks kept extraction order, so the labels are reversed.
    assert_eq!(placed[0].position.2, 34);
    assert!(!placed[0].bottom_1x_cube);
    assert!(placed[1].bottom_1x_cube);
    assert!(!placed[2].bottom_1x_cube);
    assert!(placed[3].bottom_1x_cube);
}
