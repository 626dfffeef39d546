use std::collections::HashSet;
use voxel_stream::cell::Cell;
use voxel_stream::cube_shell::{cube_diff, cube_shell};

/// the number of elements in a cube shell
fn cube_shell_area(radius: i32) -> u32 {
    assert!(radius >= 0);
    if radius == 0 {
        return 1;
    }

    let width = 2 * radius + 1;
    // volume of the cube
    let outer = width * width * width;
    // volume of the cube of radius r - 1.
    let inner = (width - 2) * (width - 2) * (width - 2);
    (outer - inner) as u32
}

fn cell_of(a: &[i32; 3], base: &Cell) -> Cell {
    Cell { x: a[0] + base.x, y: a[1] + base.y, z: a[2] + base.z }
}

#[test]
// Check that the surface area is correct for a few different shells.
fn test_surface_area() {
    let centers = [Cell { x: 0, y: 0, z: 0 }, Cell { x: 2, y: 1, z: -4 }];
    for center in &centers {
        for radius in 1..5 {
            assert_eq!(cube_shell(center, radius as i32).len() as u32, cube_shell_area(radius));
        }
    }
}

#[test]
fn test_simple_shell() {
    let center = Cell { x: 2, y: 0, z: -3 };
    let radius = 1;

    let expected: HashSet<Cell> = [
        [0, 0, 1],
        [0, 0, -1],
        [0, 1, 0],
        [0, 1, 1],
        [0, 1, -1],
        [0, -1, 0],
        [0, -1, 1],
        [0, -1, -1],
        [1, 0, 0],
        [1, 0, 1],
        [1, 0, -1],
        [1, 1, 0],
        [1, 1, 1],
        [1, 1, -1],
        [1, -1, 0],
        [1, -1, 1],
        [1, -1, -1],
        [-1, 0, 0],
        [-1, 0, 1],
        [-1, 0, -1],
        [-1, 1, 0],
        [-1, 1, 1],
        [-1, 1, -1],
        [-1, -1, 0],
        [-1, -1, 1],
        [-1, -1, -1],
    ]
    .iter()
    .map(|a| cell_of(a, &center))
    .collect();

    let actual = cube_shell(&center, radius);
    assert_eq!(expected, actual.into_iter().collect());
}

#[test]
fn test_shell_no_dups() {
    let center = Cell { x: 2, y: 0, z: -3 };
    let radius = 2;
    let expected = cube_shell(&center, radius);
    let actual: HashSet<Cell> = expected.iter().cloned().collect();
    assert_eq!(expected.len(), actual.len());
}

#[test]
fn test_simple_diff() {
    let from = Cell { x: 2, y: 0, z: -3 };
    let to = Cell { x: from.x - 1, y: from.y + 2, z: from.z };
    let radius = 1;

    let expected: HashSet<Cell> = [
        [1, 0, 0],
        [1, 1, 0],
        [1, -1, 0],
        [1, 0, 1],
        [1, 1, 1],
        [1, -1, 1],
        [1, 0, -1],
        [1, 1, -1],
        [1, -1, -1],
        [0, -1, 0],
        [0, 0, 0],
        [1, -1, 0],
        [1, 0, 0],
        [-1, -1, 0],
        [-1, 0, 0],
        [0, -1, -1],
        [0, 0, -1],
        [1, -1, -1],
        [1, 0, -1],
        [-1, -1, -1],
        [-1, 0, -1],
        [0, -1, 1],
        [0, 0, 1],
        [1, -1, 1],
        [1, 0, 1],
        [-1, -1, 1],
        [-1, 0, 1],
    ]
    .iter()
    .map(|a| cell_of(a, &from))
    .collect();

    let actual = cube_diff(&from, &to, radius);
    assert_eq!(expected, actual.into_iter().collect());
}

#[test]
fn test_diff_no_dups() {
    let from = Cell { x: 2, y: 0, z: -3 };
    let to = Cell { x: from.x - 1, y: from.y + 2, z: from.z };
    let radius = 2;

    let expected = cube_diff(&from, &to, radius);
    let actual: HashSet<Cell> = expected.iter().cloned().collect();
    assert_eq!(expected.len(), actual.len());
}

#[test]
fn test_no_diff() {
    let center = Cell { x: -5, y: 1, z: -7 };
    let radius = 3;
    assert!(cube_diff(&center, &center, radius).is_empty());
}

#[test]
fn shell_radius_zero_is_center() {
    let center = Cell { x: 7, y: -2, z: 11 };
    let shell = cube_shell(&center, 0);
    assert_eq!(shell.len(), 1);
    assert_eq!(shell[0], center);
}

#[test]
fn shell_area_and_no_dups_up_to_ten() {
    let center = Cell { x: -3, y: 9, z: 100 };
    for radius in 1..=10i64 {
        let shell = cube_shell(&center, radius as i32);
        let w = 2 * radius + 1;
        let v = 2 * radius - 1;
        assert_eq!(shell.len() as i64, w * w * w - v * v * v);
        let distinct: HashSet<Cell> = shell.iter().cloned().collect();
        assert_eq!(distinct.len(), shell.len());
    }
}

#[test]
fn diff_no_dups_small_radii() {
    let moves = [
        [1, 0, 0],
        [0, 1, 0],
        [0, 0, 1],
        [-1, 2, 0],
        [2, -2, 1],
        [3, 3, 3],
        [0, 0, 0],
        [-5, 0, 2],
    ];
    let from = Cell { x: 4, y: -1, z: 6 };
    for radius in 0..=2i32 {
        for m in &moves {
            let to = cell_of(m, &from);
            let diff = cube_diff(&from, &to, radius);
            let distinct: HashSet<Cell> = diff.iter().cloned().collect();
            assert_eq!(distinct.len(), diff.len());
        }
    }
}

#[test]
fn diff_spares_cells_resident_in_both_regions() {
    let a = Cell { x: 0, y: 0, z: 0 };
    let b = Cell { x: 1, y: 2, z: 0 };
    let radius = 2;
    let ab: HashSet<Cell> = cube_diff(&a, &b, radius).into_iter().collect();
    let ba: HashSet<Cell> = cube_diff(&b, &a, radius).into_iter().collect();
    for dx in -radius..=radius {
        for dy in -radius..=radius {
            for dz in -radius..=radius {
                let c = Cell { x: a.x + dx, y: a.y + dy, z: a.z + dz };
                let in_b = (c.x - b.x).abs() <= radius && (c.y - b.y).abs() <= radius
                    && (c.z - b.z).abs() <= radius;
                if in_b {
                    // resident in both regions: listed by neither diff
                    assert!(!ab.contains(&c));
                    assert!(!ba.contains(&c));
                }
            }
        }
    }
}
