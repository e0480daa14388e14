use sprite_engine::engine::{Array2D, Bitmap, GridError, Position, RecordError};

fn sample_bitmap() -> Bitmap {
    Bitmap::from_parts(3, 2, vec![4, 1, 4, 1, 1, 4], 4, 1).unwrap()
}

#[test]
fn test_array2d_new_default() {
    let cols = 6;
    let rows = 3;
    let default = 91;
    let array = Array2D::<u8>::new(cols, rows, (true, default));
    for i in 0..cols * rows {
        assert_eq!(array.get_elements()[i], default);
    }
}

#[test]
fn test_array2d_clone() {
    let cols = 6;
    let rows = 3;
    let default = 91;
    let array = Array2D::<u8>::new(cols, rows, (true, default));
    let mut array2 = array.clone();
    array2.set(&Position { x: 4, y: 2 }, 21).unwrap();
    assert_eq!(array.get(&Position { x: 4, y: 2 }), Ok(default));
    assert_eq!(array2.get(&Position { x: 4, y: 2 }), Ok(21));
}

#[test]
fn test_array2d_index() {
    let mut array = Array2D::<u8>::new(14, 2, (true, 7));
    // cells 13 and 14 of the row-major storage
    array.set(&Position { x: 13, y: 0 }, 19).unwrap();
    array.set(&Position { x: 0, y: 1 }, 4).unwrap();
    assert_eq!(array.get_elements()[13], 19);
    assert_eq!(array.get_elements()[14], 4);
    assert_eq!(array.get(&Position { x: 13, y: 0 }), Ok(19));
    assert_eq!(array.get(&Position { x: 0, y: 1 }), Ok(4));
}

#[test]
fn test_array2d_index_mut() {
    let mut array = Array2D::<u8>::new(3, 7, (true, 0));
    array.set(&Position { x: 0, y: 2 }, 5).unwrap();
    array.set(&Position { x: 2, y: 0 }, 1).unwrap();
    array.set(&Position { x: 2, y: 5 }, 9).unwrap();
    assert_eq!(array.get_elements()[0], 0);
    assert_eq!(array.get_elements()[2], 1);
    assert_eq!(array.get_elements()[6], 5);
    assert_eq!(array.get_elements()[17], 9);
    assert_eq!(array.get_elements()[20], 0);
}

#[test]
fn test_bitmap_new_default() {
    let cols = 6;
    let rows = 3;
    let bg = 0;
    let fg = 1;
    let bitmap = Bitmap::new(cols, rows, fg, bg);
    println!("{}", bitmap.render());
}

#[test]
fn test_bitmap_reset() {
    let mut bm = sample_bitmap();
    let fg = bm.get_fg();
    let bg = bm.get_bg();
    let rows = bm.get_data().get_rows();
    let cols = bm.get_data().get_cols();
    bm.reset();
    // Make sure size and values not modified
    assert_eq!(bm.get_fg(), fg);
    assert_eq!(bm.get_bg(), bg);
    assert_eq!(bm.get_data().get_cols(), cols);
    assert_eq!(bm.get_data().get_rows(), rows);
    // Check everything is set back to bg
    for y_in in 0..rows {
        for x_in in 0..cols {
            assert_eq!(bm.get_data().get(&Position { x: x_in, y: y_in }), Ok(bg));
        }
    }
}

#[test]
fn array2d_get_out_of_range() {
    let array = Array2D::<u8>::new(14, 2, (true, 7));
    assert_eq!(array.get(&Position { x: 14, y: 0 }), Err(GridError::OutOfRange));
    assert_eq!(array.get(&Position { x: 0, y: 2 }), Err(GridError::OutOfRange));
}

#[test]
fn array2d_set_out_of_range_leaves_grid() {
    let mut array = Array2D::<u8>::new(14, 2, (true, 7));
    assert_eq!(array.set(&Position { x: 14, y: 0 }, 5), Err(GridError::OutOfRange));
    assert_eq!(array.set(&Position { x: 3, y: 9 }, 5), Err(GridError::OutOfRange));
    assert!(array.get_elements().iter().all(|&v| v == 7));
}

#[test]
fn array2d_without_fill_is_uninitialized() {
    let mut array = Array2D::<u8>::new(6, 3, (false, 91));
    assert_eq!(array.get_elements().len(), 0);
    assert_eq!(array.get(&Position { x: 0, y: 0 }), Err(GridError::Uninitialized));
    assert_eq!(array.set(&Position { x: 1, y: 1 }, 3), Err(GridError::Uninitialized));
    assert_eq!(array.get(&Position { x: 6, y: 0 }), Err(GridError::OutOfRange));
}

#[test]
fn array2d_set_then_get_every_cell() {
    let mut array = Array2D::<u8>::new(4, 3, (true, 0));
    for y in 0..3 {
        for x in 0..4 {
            let v = (10 * y + x) as u8;
            array.set(&Position { x, y }, v).unwrap();
            assert_eq!(array.get(&Position { x, y }), Ok(v));
        }
    }
    assert_eq!(array.get_elements()[4 * 2 + 3], 23);
}

#[test]
fn array2d_in_range_bounds() {
    let array = Array2D::<u8>::new(3, 2, (true, 0));
    assert!(array.in_range(&Position { x: 2, y: 1 }));
    assert!(!array.in_range(&Position { x: 3, y: 1 }));
    assert!(!array.in_range(&Position { x: 0, y: 2 }));
    assert_eq!(array.get_cols(), 3);
    assert_eq!(array.get_rows(), 2);
}

#[test]
fn array2d_from_parts_checks_count() {
    let ok = Array2D::<u8>::from_parts(3, 2, vec![1, 2, 3, 4, 5, 6]).unwrap();
    assert_eq!(ok.get(&Position { x: 0, y: 1 }), Ok(4));
    assert_eq!(
        Array2D::<u8>::from_parts(3, 2, vec![1, 2, 3, 4, 5]).err(),
        Some(RecordError::DimensionMismatch)
    );
    assert_eq!(
        Array2D::<u8>::from_parts(usize::MAX, 2, vec![1]).err(),
        Some(RecordError::DimensionMismatch)
    );
}

#[test]
fn array2d_render_text() {
    let array = Array2D::<u8>::from_parts(2, 2, vec![1, 23, 255, 0]).unwrap();
    assert_eq!(array.render(), "\n[ 1 23 \n  255 0 ]");
    let empty = Array2D::<u8>::new(2, 2, (false, 0));
    assert_eq!(empty.render(), "\n[ ]");
}

#[test]
fn bitmap_from_parts_reads_record() {
    let bm = sample_bitmap();
    assert_eq!(bm.get_fg(), 4);
    assert_eq!(bm.get_bg(), 1);
    assert_eq!(bm.get_data().get_cols(), 3);
    assert_eq!(bm.get_data().get_rows(), 2);
    assert_eq!(bm.get_data().get(&Position { x: 2, y: 1 }), Ok(4));
    assert_eq!(bm.get_data().get(&Position { x: 1, y: 1 }), Ok(1));
    assert_eq!(
        Bitmap::from_parts(3, 2, vec![4, 1, 4], 4, 1).err(),
        Some(RecordError::DimensionMismatch)
    );
}

#[test]
fn bitmap_render_glyphs() {
    let mut bm = sample_bitmap();
    assert_eq!(bm.render(), "-----\n|# #|\n|  #|\n-----\n");
    bm.get_data_mut().set(&Position { x: 1, y: 1 }, 7).unwrap();
    assert_eq!(bm.render(), "-----\n|# #|\n| ?#|\n-----\n");
    assert_eq!(Bitmap::new(0, 2, 1, 0).render(), "--\n||\n--\n");
}

#[test]
fn bitmap_same_fg_and_bg_renders_drawn() {
    let bm = Bitmap::new(2, 1, 3, 3);
    assert_eq!(bm.render(), "----\n|##|\n----\n");
}

#[test]
fn bitmap_mut_getters_change_values() {
    let mut bm = Bitmap::new(2, 2, 1, 0);
    *bm.get_fg_mut() = 8;
    *bm.get_bg_mut() = 9;
    assert_eq!(bm.get_fg(), 8);
    assert_eq!(bm.get_bg(), 9);
    bm.reset();
    assert!(bm.get_data().get_elements().iter().all(|&v| v == 9));
}

#[test]
fn position_getters() {
    let p = Position { x: 3, y: 8 };
    assert_eq!(p.get_x(), 3);
    assert_eq!(p.get_y(), 8);
}
