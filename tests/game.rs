use sprite_engine::engine::{Bitmap, Position, RecordError};
use sprite_engine::game::{Board, BoardError, Sprite};

fn sprite_from_rows(cells: Vec<u8>, cols: usize, rows: usize, fg: u8, bg: u8, x: usize, y: usize) -> Sprite {
    let pixels = Bitmap::from_parts(cols, rows, cells, fg, bg).unwrap();
    Sprite::from_parts(pixels, Position { x, y }).unwrap()
}

fn sample_sprite(x: usize, y: usize) -> Sprite {
    sprite_from_rows(vec![4, 1, 4, 1, 1, 4], 3, 2, 4, 1, x, y)
}

fn screen_cells(b: &Board) -> Vec<u8> {
    b.get_screen().get_data().get_elements().clone()
}

#[test]
fn test_sprite_new() {
    let cols = 6;
    let rows = 3;
    let bg = 0;
    let fg = 1;
    let pos = Some(Position { x: 2, y: 3 });
    let s: Sprite = Sprite::new(cols, rows, fg, bg, pos);
    assert_eq!(s.get_pos().get_x(), 2);
    assert_eq!(s.get_pos().get_y(), 3);
}

#[test]
fn test_sprite_new_default_pos() {
    let cols = 6;
    let rows = 3;
    let bg = 0;
    let fg = 1;
    let pos = None;
    let s: Sprite = Sprite::new(cols, rows, fg, bg, pos);
    assert_eq!(s.get_pos().get_x(), 0);
    assert_eq!(s.get_pos().get_y(), 0);
}

#[test]
fn test_sprite_intersect_ranges() {
    let sp1 = sample_sprite(2, 5);
    let sp1_again = sample_sprite(2, 5);
    let sp2 = sample_sprite(5, 5);
    assert_eq!(sp1.intersect(&sp1_again), true);
    assert_eq!(sp1.intersect(&sp2), false);
}

#[test]
fn test_board_new() {
    let cols = 6;
    let rows = 3;
    let bg = 4;
    let fg = 9;
    let b: Board = Board::new(cols, rows, fg, bg);
    assert_eq!(b.get_sprites().len(), 0);
    let _ = serde_json::to_string(b.get_screen().get_data().get_elements()).expect("Could not stringify");
    for y_in in 0..rows {
        for x_in in 0..cols {
            assert_eq!(b.get_screen().get_data().get(&Position { x: x_in, y: y_in }), Ok(bg));
        }
    }
}

#[test]
fn test_board_new_push_sprites_succeed() {
    let cols = 6;
    let rows = 3;
    let bg = 0;
    let fg = 1;
    let mut b: Board = Board::new(cols, rows, fg, bg);
    let _ = &b.add_sprite(Sprite::new(2, 3, 4, 5, None));
    // These don't overlap
    let _ = &b.add_sprite(Sprite::new(2, 3, 8, 7, Some(Position { x: 2, y: 0 })));
    assert_eq!(b.get_sprites().len(), 2);
    let _ = serde_json::to_string(b.get_screen().get_data().get_elements()).expect("Could not stringify");
    assert_eq!(b.update(), Ok(()));
}

#[test]
fn test_board_update() {}

#[test]
fn sprite_bounds_are_inclusive() {
    let s = Sprite::new(3, 2, 4, 1, Some(Position { x: 2, y: 5 }));
    assert_eq!(s.get_bounds().top_left, Position { x: 2, y: 5 });
    assert_eq!(s.get_bounds().bottom_right, Position { x: 4, y: 6 });
    assert_eq!(s.get_pixels().get_data().get_cols(), 3);
    assert_eq!(s.get_pixels().get_fg(), 4);
}

#[test]
fn sprite_pixel_at_translates_point() {
    let s = sample_sprite(2, 5);
    assert_eq!(s.get_pixel_at(&Position { x: 2, y: 5 }), Some(4));
    assert_eq!(s.get_pixel_at(&Position { x: 3, y: 5 }), Some(1));
    assert_eq!(s.get_pixel_at(&Position { x: 4, y: 6 }), Some(4));
    assert_eq!(s.get_pixel_at(&Position { x: 3, y: 6 }), Some(1));
    assert_eq!(s.get_pixel_at(&Position { x: 1, y: 5 }), None);
    assert_eq!(s.get_pixel_at(&Position { x: 2, y: 4 }), None);
    assert_eq!(s.get_pixel_at(&Position { x: 5, y: 5 }), None);
    assert_eq!(s.get_pixel_at(&Position { x: 2, y: 7 }), None);
}

#[test]
fn sprite_intersect_is_symmetric() {
    let a = sample_sprite(2, 5);
    let b = sprite_from_rows(vec![1, 4, 4, 1], 2, 2, 4, 1, 3, 4);
    let c = sprite_from_rows(vec![4, 1, 1, 1], 2, 2, 4, 1, 4, 5);
    assert_eq!(a.intersect(&b), b.intersect(&a));
    assert_eq!(a.intersect(&c), c.intersect(&a));
    assert!(!a.intersect(&b));
    assert!(a.intersect(&c));
}

#[test]
fn sprite_overlap_in_background_only_does_not_intersect() {
    let a = sample_sprite(0, 0);
    // only cell (1, 0) is drawn, where `a` holds background
    let b = sprite_from_rows(vec![1, 4], 2, 1, 4, 1, 0, 0);
    assert!(!a.intersect(&b));
    assert!(!b.intersect(&a));
}

#[test]
fn sprite_without_foreground_never_intersects_copy() {
    let a = Sprite::new(3, 2, 4, 1, Some(Position { x: 2, y: 5 }));
    let b = Sprite::new(3, 2, 4, 1, Some(Position { x: 2, y: 5 }));
    assert!(!a.intersect(&b));
}

#[test]
fn sprite_from_parts_checks_extent() {
    let empty = Bitmap::new(0, 2, 1, 0);
    assert_eq!(Sprite::from_parts(empty, Position { x: 0, y: 0 }).err(), Some(RecordError::BadSpriteExtent));
    let one = Bitmap::new(2, 1, 1, 0);
    assert_eq!(
        Sprite::from_parts(one, Position { x: usize::MAX, y: 0 }).err(),
        Some(RecordError::BadSpriteExtent)
    );
    let fits = Bitmap::new(1, 1, 1, 0);
    let s = Sprite::from_parts(fits, Position { x: usize::MAX, y: 3 }).unwrap();
    assert_eq!(s.get_bounds().bottom_right, Position { x: usize::MAX, y: 3 });
}

#[test]
fn board_rejects_overlapping_foreground() {
    let mut b = Board::new(8, 8, 1, 0);
    b.add_sprite(sample_sprite(2, 5));
    assert_eq!(b.get_sprites().len(), 1);
    b.add_sprite(sample_sprite(2, 5));
    assert_eq!(b.get_sprites().len(), 1);
    // shares cell (4, 5) drawn in both
    b.add_sprite(sprite_from_rows(vec![4], 1, 1, 4, 1, 4, 5));
    assert_eq!(b.get_sprites().len(), 1);
}

#[test]
fn board_admits_background_overlap_and_disjoint() {
    let mut b = Board::new(8, 8, 1, 0);
    b.add_sprite(sample_sprite(2, 5));
    // cell (3, 5) is background in the first sprite
    b.add_sprite(sprite_from_rows(vec![4], 1, 1, 4, 1, 3, 5));
    assert_eq!(b.get_sprites().len(), 2);
    b.add_sprite(sample_sprite(5, 0));
    assert_eq!(b.get_sprites().len(), 3);
    assert_eq!(b.get_sprites()[2].get_pos(), &Position { x: 5, y: 0 });
}

#[test]
fn board_update_copies_sprite_cells() {
    let mut b = Board::new(5, 3, 4, 0);
    b.add_sprite(sprite_from_rows(vec![4, 0, 4, 0], 2, 2, 4, 0, 0, 0));
    b.add_sprite(sprite_from_rows(vec![6, 6, 0], 3, 1, 6, 0, 2, 2));
    assert_eq!(b.update(), Ok(()));
    assert_eq!(
        screen_cells(&b),
        vec![
            4, 0, 0, 0, 0, //
            4, 0, 0, 0, 0, //
            0, 0, 6, 6, 0,
        ]
    );
    assert_eq!(b.render(), "-------\n|#    |\n|#    |\n|  ?? |\n-------\n");
}

#[test]
fn board_update_twice_gives_same_screen() {
    let mut b = Board::new(6, 4, 1, 0);
    b.add_sprite(sprite_from_rows(vec![1, 0, 1, 0, 1, 0], 3, 2, 1, 0, 0, 0));
    b.add_sprite(sprite_from_rows(vec![1, 1, 1], 3, 1, 1, 0, 3, 3));
    assert_eq!(b.update(), Ok(()));
    let first = screen_cells(&b);
    assert_eq!(b.update(), Ok(()));
    assert_eq!(screen_cells(&b), first);
}

#[test]
fn board_update_reports_occupied_pixel() {
    let mut b = Board::new(6, 3, 1, 0);
    b.add_sprite(Sprite::new(6, 3, 4, 5, None));
    // no foreground cells, so admission lets it in
    b.add_sprite(Sprite::new(4, 2, 8, 7, None));
    assert_eq!(b.get_sprites().len(), 2);
    let before = screen_cells(&b);
    assert_eq!(b.update(), Err(BoardError::PixelOccupied));
    assert_eq!(screen_cells(&b), before);
}

#[test]
fn board_update_reports_sprite_off_screen() {
    let mut b = Board::new(4, 4, 1, 0);
    b.add_sprite(sample_sprite(2, 0));
    assert_eq!(b.update(), Err(BoardError::OutOfRange));
    let mut c = Board::new(4, 4, 1, 0);
    c.add_sprite(sample_sprite(0, 3));
    assert_eq!(c.update(), Err(BoardError::OutOfRange));
    assert!(screen_cells(&c).iter().all(|&v| v == 0));
}

#[test]
fn board_from_parts_keeps_sprites() {
    let screen = Bitmap::new(4, 4, 1, 0);
    let b = Board::from_parts(vec![sample_sprite(0, 0), sample_sprite(0, 0)], screen);
    assert_eq!(b.get_sprites().len(), 2);
    let mut b = b;
    assert_eq!(b.update(), Err(BoardError::PixelOccupied));
}

#[test]
fn sprite_render_delegates_to_bitmap() {
    let s = sample_sprite(7, 7);
    assert_eq!(s.render(), "-----\n|# #|\n|  #|\n-----\n");
}
