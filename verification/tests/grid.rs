use pirate_sim::basics::RectArea;
use pirate_sim::helpers::{
    index_to_point, point_to_index, points_around, Distance, GridError, RectDimension,
};

#[test]
fn index_and_point_are_row_major() {
    assert_eq!(point_to_index(2, 1, 5), Ok(7));
    assert_eq!(index_to_point(7, 5, 3), Ok((2, 1)));
    assert_eq!(point_to_index(0, 0, 1), Ok(0));
    assert_eq!(index_to_point(14, 5, 3), Ok((4, 2)));
}

#[test]
fn index_and_point_undo_each_other_on_a_whole_grid() {
    let (w, h) = (7usize, 5usize);
    for i in 0..w * h {
        let (x, y) = index_to_point(i, w, h).unwrap();
        assert!(x < w && y < h);
        assert_eq!(point_to_index(x, y, w), Ok(i));
    }
    for y in 0..h {
        for x in 0..w {
            let i = point_to_index(x, y, w).unwrap();
            assert_eq!(index_to_point(i, w, h), Ok((x, y)));
        }
    }
}

#[test]
fn index_beyond_the_grid_is_out_of_bounds() {
    assert_eq!(index_to_point(15, 5, 3), Err(GridError::OutOfBounds));
    assert_eq!(index_to_point(0, 0, 3), Err(GridError::OutOfBounds));
    assert_eq!(index_to_point(0, 3, 0), Err(GridError::OutOfBounds));
    assert_eq!(index_to_point(usize::MAX, usize::MAX, 1), Err(GridError::OutOfBounds));
    // a grid too large for its cell count to be held is mapped all the same
    assert_eq!(index_to_point(usize::MAX, usize::MAX, usize::MAX), Ok((0, 1)));
}

#[test]
fn point_beyond_the_width_is_out_of_bounds() {
    assert_eq!(point_to_index(5, 0, 5), Err(GridError::OutOfBounds));
    assert_eq!(point_to_index(0, 0, 0), Err(GridError::OutOfBounds));
    assert_eq!(point_to_index(1, usize::MAX, 2), Err(GridError::OutOfBounds));
    assert_eq!(point_to_index(1, usize::MAX / 2, 2), Ok(usize::MAX));
}

#[test]
fn dimension_maps_points_and_indices() {
    let dim = RectDimension::new(4, 3);
    assert_eq!(dim.width, 4);
    assert_eq!(dim.height, 3);
    assert_eq!(dim.area(), 12);
    assert_eq!(dim.point_to_index(3, 2), Ok(11));
    assert_eq!(dim.point_to_index(4, 0), Err(GridError::OutOfBounds));
    assert_eq!(dim.point_to_index(0, 3), Err(GridError::OutOfBounds));
    assert_eq!(dim.index_to_point(11), Ok((3, 2)));
    assert_eq!(dim.index_to_point(12), Err(GridError::OutOfBounds));
    assert_eq!(RectDimension::new(255, 255).area(), 65025);
    assert_eq!(RectDimension::new(0, 9).area(), 0);
}

#[test]
fn rect_area_multiplies() {
    let r = RectArea::new(20, 30);
    assert_eq!(r.width, 20);
    assert_eq!(r.height, 30);
    assert_eq!(r.area(), 600);
    assert_eq!(RectArea::new(255, 255).area(), 65025);
}

#[test]
fn points_around_lists_the_eight_neighbours_in_order() {
    assert_eq!(
        points_around(5, 7),
        [(4, 7), (4, 6), (4, 8), (5, 8), (5, 6), (6, 6), (6, 7), (6, 8)]
    );
    assert_eq!(
        points_around(0, 0),
        [(-1, 0), (-1, -1), (-1, 1), (0, 1), (0, -1), (1, -1), (1, 0), (1, 1)]
    );
}

#[test]
fn neighbors_of_corner_edge_and_inner_cells() {
    let dim = RectDimension::new(4, 3);
    let mut corner = dim.neighbors(0);
    corner.sort();
    assert_eq!(corner, vec![1, 4, 5]);
    let mut edge = dim.neighbors(1);
    edge.sort();
    assert_eq!(edge, vec![0, 2, 4, 5, 6]);
    let mut inner = dim.neighbors(5);
    inner.sort();
    assert_eq!(inner, vec![0, 1, 2, 4, 6, 8, 9, 10]);
    let mut last = dim.neighbors(11);
    last.sort();
    assert_eq!(last, vec![6, 7, 10]);
    assert_eq!(RectDimension::new(1, 1).neighbors(0), Vec::<usize>::new());
    assert_eq!(dim.neighbors(12), Vec::<usize>::new());
}

#[test]
fn distance_is_the_larger_minus_the_smaller() {
    assert_eq!(<u8 as Distance>::distance(3, 250), 247);
    assert_eq!(<u32 as Distance>::distance(7, 7), 0);
    assert_eq!(<u64 as Distance>::distance(u64::MAX, 0), u64::MAX);
    assert_eq!(<usize as Distance>::distance(10, 4), 6);
    assert_eq!(<i32 as Distance>::distance(-5, 9), 14);
    assert_eq!(<i64 as Distance>::distance(9, -5), 14);
}
