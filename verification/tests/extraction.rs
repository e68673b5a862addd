use schematic2bls::extract_largest_cubes_from;
use schematic2bls::largest_cube::LargestCube;
use schematic2bls::largest_cube::extraction::get_largest_cubes;
use schematic2bls::largest_cube::mapping::grid_to_largest_cubes;

fn full_grid(n: usize) -> Vec<Vec<Vec<bool>>> {
    vec![vec![vec![true; n]; n]; n]
}

#[test]
fn largest_cube_simple_2x2() {
    let cube_size = 2;
    let mut grid = vec![vec![vec![false; cube_size]; cube_size]; cube_size];

    for length_entry in grid.iter_mut() {
        for width_entry in length_entry {
            for height_entry in width_entry {
                *height_entry = true;
            }
        }
    }

    let found_cubes = grid_to_largest_cubes(grid, 1);

    let expected = LargestCube {
        side_length: 2,
        indexes: (2, 2, 2),
    };

    let actual = &get_largest_cubes(found_cubes, 1)[0];

    assert_eq!(expected, *actual);
}

/// A fully filled grid whose side is a palette size yields exactly one
/// cube of that side, anchored at the far corner.
#[test]
fn single_full_cube_each_palette_size() {
    for n in [1usize, 2, 4, 8, 16, 32, 64] {
        let cubes = extract_largest_cubes_from(full_grid(n), 1);
        assert_eq!(cubes.len(), 1, "side {}", n);
        assert_eq!(
            cubes[0],
            LargestCube {
                side_length: n as u16,
                indexes: (n, n, n),
            },
            "side {}",
            n
        );
    }
}

/// A 9x9x9 grid with only the sub-block [2,5) of each axis filled has a
/// single largest cube of side 3, whose far corner sits at cell
/// (5, 5, 5) of the distance grid.
#[test]
fn spaced_cube_distance_values() {
    let mut grid = vec![vec![vec![false; 9]; 9]; 9];
    for x in 2..5 {
        for y in 2..5 {
            for z in 2..5 {
                grid[x][y][z] = true;
            }
        }
    }

    let distance_grid = grid_to_largest_cubes(grid, 1);
    assert_eq!(distance_grid.get(5, 5, 5), 3);
    for x in 0..10 {
        for y in 0..10 {
            for z in 0..10 {
                if (x, y, z) != (5, 5, 5) {
                    assert!(distance_grid.get(x, y, z) <= 2);
                }
            }
        }
    }

    // Extraction snaps the side down to the palette: the first cube
    // claimed is the 2-cube at that corner.
    let cubes = get_largest_cubes(distance_grid, 1);
    assert_eq!(
        cubes[0],
        LargestCube {
            side_length: 2,
            indexes: (5, 5, 5),
        }
    );
}

/// Two overlapping regions whose true maximal cubes are 16 and 12: the
/// 12-corner snaps to 8, collides with the claimed 16-cube, and is
/// accepted only after downgrading to 4.
#[test]
fn palette_driven_downgrade() {
    let mut grid = vec![vec![vec![false; 16]; 16]; 20];
    for x in 0..20 {
        for y in 0..16 {
            for z in 0..16 {
                let in_big = x < 16;
                let in_small = (8..20).contains(&x) && y < 12 && z < 12;
                if in_big || in_small {
                    grid[x][y][z] = true;
                }
            }
        }
    }

    let cubes = extract_largest_cubes_from(grid, 1);
    assert_eq!(
        cubes[0],
        LargestCube {
            side_length: 16,
            indexes: (16, 16, 16),
        }
    );
    assert_eq!(
        cubes[1],
        LargestCube {
            side_length: 4,
            indexes: (20, 12, 12),
        }
    );
}

/// Extracting with a pre-applied scale yields the anchors of the
/// unscaled extraction, multiplied by the scale.
#[test]
fn scale_multiplies_anchors() {
    let mut grid = vec![vec![vec![false; 9]; 9]; 9];
    for x in 2..5 {
        for y in 2..5 {
            for z in 2..5 {
                grid[x][y][z] = true;
            }
        }
    }
    grid[0][0][0] = true;

    let unscaled = extract_largest_cubes_from(grid.clone(), 1);
    let scaled = extract_largest_cubes_from(grid, 4);

    assert_eq!(unscaled.len(), scaled.len());
    for (a, b) in unscaled.iter().zip(scaled.iter()) {
        assert_eq!(b.indexes.0, 4 * a.indexes.0);
        assert_eq!(b.indexes.1, 4 * a.indexes.1);
        assert_eq!(b.indexes.2, 4 * a.indexes.2);
        assert_eq!(b.side_length, 4 * a.side_length);
    }
}

/// The cubes claim every filled voxel exactly once: no overlaps and no
/// voxel left out, on an irregular shape.
#[test]
fn claims_partition_the_filled_voxels() {
    let n = 13;
    let mut grid = vec![vec![vec![false; n]; n]; n];
    for x in 0..n {
        for y in 0..n {
            for z in 0..n {
                grid[x][y][z] = (x + 2 * y + 3 * z) % 4 != 1 && x * y >= z;
            }
        }
    }

    let cubes = extract_largest_cubes_from(grid.clone(), 1);

    let mut claimed = vec![vec![vec![0u32; n]; n]; n];
    for cube in &cubes {
        let side = cube.side_length as usize;
        for x in cube.indexes.0 - side..cube.indexes.0 {
            for y in cube.indexes.1 - side..cube.indexes.1 {
                for z in cube.indexes.2 - side..cube.indexes.2 {
                    claimed[x][y][z] += 1;
                }
            }
        }
    }

    for x in 0..n {
        for y in 0..n {
            for z in 0..n {
                let expected = if grid[x][y][z] { 1 } else { 0 };
                assert_eq!(claimed[x][y][z], expected, "voxel {:?}", (x, y, z));
            }
        }
    }
}
