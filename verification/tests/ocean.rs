use pirate_sim::helpers::RectDimension;
use pirate_sim::worldgen::ocean::classify_ocean;

fn grid_of(rows: &[&[i32]]) -> (Vec<i32>, RectDimension) {
    let h = rows.len() as u8;
    let w = rows[0].len() as u8;
    let mut cells = Vec::new();
    for row in rows {
        assert_eq!(row.len(), w as usize);
        cells.extend_from_slice(row);
    }
    (cells, RectDimension::new(w, h))
}

#[test]
fn border_water_is_open_and_shut_in_water_is_not() {
    let (heights, dim) = grid_of(&[
        &[0, 0, 0, 0, 0],
        &[0, 9, 9, 9, 0],
        &[0, 9, 0, 9, 0],
        &[0, 9, 9, 9, 0],
        &[0, 0, 0, 0, 0],
    ]);
    let open = classify_ocean(&heights, 0, dim);
    for (i, mark) in open.iter().enumerate() {
        let (x, y) = (i % 5, i / 5);
        let border = x == 0 || y == 0 || x == 4 || y == 4;
        assert_eq!(*mark, border, "cell {}", i);
    }
}

#[test]
fn land_is_never_open_ocean() {
    let (heights, dim) = grid_of(&[&[5, 5, 5], &[5, 5, 5], &[5, 5, 5]]);
    assert_eq!(classify_ocean(&heights, 4, dim), vec![false; 9]);
    assert_eq!(classify_ocean(&heights, 5, dim), vec![true; 9]);
}

#[test]
fn water_joins_the_ocean_by_a_corner() {
    let (heights, dim) = grid_of(&[
        &[0, 9, 9, 9],
        &[9, 0, 9, 9],
        &[9, 9, 0, 9],
        &[9, 9, 9, 9],
    ]);
    let open = classify_ocean(&heights, 0, dim);
    assert!(open[0] && open[5] && open[10]);
    assert_eq!(open.iter().filter(|m| **m).count(), 3);
}

#[test]
fn a_winding_channel_is_followed_against_the_order_of_the_cells() {
    // the channel enters at the bottom right and winds back up to the
    // cell (1, 1), which comes long before it in the order of the cells
    let (heights, dim) = grid_of(&[
        &[9, 9, 9, 9, 9, 9, 9],
        &[9, 0, 9, 0, 0, 0, 9],
        &[9, 0, 9, 0, 9, 0, 9],
        &[9, 0, 9, 0, 9, 0, 9],
        &[9, 0, 0, 0, 9, 0, 9],
        &[9, 9, 9, 9, 9, 0, 9],
        &[9, 9, 9, 9, 9, 0, 9],
    ]);
    let open = classify_ocean(&heights, 0, dim);
    for (i, mark) in open.iter().enumerate() {
        assert_eq!(*mark, heights[i] == 0, "cell {}", i);
    }
}

#[test]
fn a_lake_next_to_a_channel_stays_a_lake() {
    let (heights, dim) = grid_of(&[
        &[9, 9, 9, 9, 9, 9],
        &[9, 0, 9, 9, 9, 9],
        &[9, 9, 9, 9, 0, 0],
        &[9, 0, 0, 9, 9, 9],
        &[9, 9, 9, 9, 9, 9],
    ]);
    let open = classify_ocean(&heights, 0, dim);
    let mut expected = vec![false; 30];
    expected[16] = true;
    expected[17] = true;
    assert_eq!(open, expected);
}

#[test]
fn an_empty_grid_has_no_cell_to_mark() {
    assert_eq!(classify_ocean(&vec![], 0, RectDimension::new(0, 4)), Vec::<bool>::new());
}

#[test]
fn the_sea_level_itself_is_under_water() {
    let (heights, dim) = grid_of(&[&[3, 4], &[5, 2]]);
    assert_eq!(classify_ocean(&heights, 3, dim), vec![true, false, false, true]);
}
