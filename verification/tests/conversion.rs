use nbt::CompoundTag;
use schematic2bls::extract_largest_cubes_from;
use schematic2bls::model::conversion::{SchematicError, blocks_to_grid, schematic_to_3dgrid};
use schematic2bls::parse_grid_from_model;

fn schematic(length: i16, width: i16, height: i16, blocks: Vec<i8>) -> CompoundTag {
    let mut tag = CompoundTag::new();
    tag.insert_i16("Length", length);
    tag.insert_i16("Width", width);
    tag.insert_i16("Height", height);
    tag.insert_i8_vec("Blocks", blocks);
    tag
}

#[test]
fn missing_fields_are_reported_in_order() {
    let tag = CompoundTag::new();
    assert_eq!(
        parse_grid_from_model(tag),
        Err(SchematicError::MissingLength)
    );

    let mut tag = CompoundTag::new();
    tag.insert_i16("Length", 1);
    assert_eq!(parse_grid_from_model(tag), Err(SchematicError::MissingWidth));

    let mut tag = CompoundTag::new();
    tag.insert_i16("Length", 1);
    tag.insert_i16("Width", 1);
    assert_eq!(
        parse_grid_from_model(tag),
        Err(SchematicError::MissingHeight)
    );

    let mut tag = CompoundTag::new();
    tag.insert_i16("Length", 1);
    tag.insert_i16("Width", 1);
    tag.insert_i16("Height", 1);
    assert_eq!(
        parse_grid_from_model(tag),
        Err(SchematicError::MissingBlocks)
    );
}

#[test]
fn negative_dimensions_are_rejected() {
    let tag = schematic(-1, 2, 2, vec![1; 4]);
    assert_eq!(
        schematic_to_3dgrid(tag),
        Err(SchematicError::NegativeDimensions)
    );
}

#[test]
fn wrong_block_count_is_rejected() {
    let tag = schematic(2, 2, 2, vec![1; 7]);
    assert_eq!(
        schematic_to_3dgrid(tag),
        Err(SchematicError::WrongBlockCount)
    );
    assert_eq!(
        blocks_to_grid(2, 2, 2, &vec![1; 9]),
        Err(SchematicError::WrongBlockCount)
    );
}

#[test]
fn blocks_map_into_the_grid_by_axis_order() {
    // Length 2, Width 1, Height 1: x varies fastest along Length.
    let grid = blocks_to_grid(2, 1, 1, &vec![1, 0]).unwrap();
    assert_eq!(grid.len(), 1); // width
    assert_eq!(grid[0].len(), 1); // height
    assert_eq!(grid[0][0], vec![true, false]); // length

    // Height 2: the second half of the array is the upper layer.
    let grid = blocks_to_grid(1, 1, 2, &vec![0, 1]).unwrap();
    assert_eq!(grid[0][0], vec![false]);
    assert_eq!(grid[0][1], vec![true]);
}

#[test]
fn full_schematic_runs_through_extraction() {
    let tag = schematic(2, 2, 2, vec![1; 8]);
    let grid = parse_grid_from_model(tag).unwrap();
    let cubes = extract_largest_cubes_from(grid, 1);
    assert_eq!(cubes.len(), 1);
    assert_eq!(cubes[0].side_length, 2);
    assert_eq!(cubes[0].indexes, (2, 2, 2));
}

#[test]
fn nonblock_values_are_empty_voxels() {
    let grid = blocks_to_grid(1, 1, 3, &vec![1, 2, 0]).unwrap();
    assert_eq!(grid[0][0], vec![true]);
    assert_eq!(grid[0][1], vec![false]);
    assert_eq!(grid[0][2], vec![false]);
}
