use std::collections::HashSet;
use ulam::spiral::spiral_relative_coords;

#[test]
fn single_cell_yields_origin_only() {
    let coords = spiral_relative_coords(1, 1);
    assert_eq!(coords, vec![(0, 0)]);
}

#[test]
fn three_by_three_full_spiral() {
    let coords = spiral_relative_coords(3, 3);
    assert_eq!(
        coords,
        vec![
            (0, 0),
            (1, 0),
            (1, 1),
            (0, 1),
            (-1, 1),
            (-1, 0),
            (-1, -1),
            (0, -1),
            (1, -1),
        ]
    );
}

#[test]
fn emits_area_many_unique_in_bounds_coordinates() {
    for (w, h) in [(1isize, 1isize), (3, 3), (4, 4), (5, 5), (3, 5), (5, 3), (2, 7), (7, 2), (6, 4)] {
        let coords = spiral_relative_coords(w, h);
        assert_eq!(coords.len(), (w * h) as usize, "count for {w}x{h}");
        let distinct: HashSet<(isize, isize)> = coords.iter().copied().collect();
        assert_eq!(distinct.len(), coords.len(), "duplicates for {w}x{h}");
        for &(x2, y2) in &coords {
            assert!(-((w - 1) / 2) <= x2 && x2 <= w / 2, "column out of bounds for {w}x{h}");
            assert!(-((h - 1) / 2) <= y2 && y2 <= h / 2, "row out of bounds for {w}x{h}");
        }
    }
}
