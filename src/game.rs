use vstd::prelude::*;

use crate::engine::{lemma_cells_from_at, lemma_offset, parts_match, Bitmap, Position, Rectangle, RecordError};

verus! {

/// The inclusive rectangle covered by a `cols` by `rows` bitmap whose
/// top-left cell sits at `pos`.
pub open spec fn bounds_of(pos: Position, cols: nat, rows: nat) -> Rectangle {
    Rectangle {
        top_left: pos,
        bottom_right: Position { x: (pos.x + cols - 1) as usize, y: (pos.y + rows - 1) as usize },
    }
}

/// Some board cell holds a foreground cell of both sprites.
pub open spec fn collide(a: Sprite, b: Sprite) -> bool {
    exists|x: int, y: int| #[trigger] a.drawn(x, y) && #[trigger] b.drawn(x, y)
}

/// The two rectangles share no cell.
pub open spec fn rects_disjoint(a: Rectangle, b: Rectangle) -> bool {
    ||| b.top_left.x > a.bottom_right.x
    ||| b.top_left.y > a.bottom_right.y
    ||| b.bottom_right.x < a.top_left.x
    ||| b.bottom_right.y < a.top_left.y
}

/// Collision is symmetric: `a` collides with `b` exactly when `b` collides with `a`.
pub proof fn lemma_collide_symmetric(a: Sprite, b: Sprite)
    ensures
        collide(a, b) == collide(b, a),
{
    if collide(a, b) {
        let (x, y) = choose|x: int, y: int| a.drawn(x, y) && b.drawn(x, y);
        assert(b.drawn(x, y) && a.drawn(x, y));
    }
    if collide(b, a) {
        let (x, y) = choose|x: int, y: int| b.drawn(x, y) && a.drawn(x, y);
        assert(a.drawn(x, y) && b.drawn(x, y));
    }
}

/// A sprite with at least one foreground cell collides with an identical
/// copy of itself: same bitmap, same position.
pub proof fn lemma_collide_with_copy(a: Sprite, b: Sprite)
    requires
        a.bitmap() == b.bitmap(),
        a.position() == b.position(),
        exists|x: int, y: int| #[trigger] a.drawn(x, y),
    ensures
        collide(a, b),
{
    let (x, y) = choose|x: int, y: int| #[trigger] a.drawn(x, y);
    assert(a.drawn(x, y) && b.drawn(x, y));
}

/// Sprites whose bounding rectangles share no cell never collide.
pub proof fn lemma_disjoint_rects_no_collision(a: Sprite, b: Sprite)
    requires
        a.wf(),
        b.wf(),
        rects_disjoint(a.rect(), b.rect()),
    ensures
        !collide(a, b),
{
    assert forall|x: int, y: int| #[trigger] a.drawn(x, y) implies !b.drawn(x, y) by {
        if b.drawn(x, y) {
            assert(a.covers(x, y) && b.covers(x, y));
        }
    }
}

/// A record of a sprite: a bitmap with at least one column and one row,
/// placed so that its bounding rectangle stays within `usize` coordinates.
pub open spec fn sprite_parts_ok(pixels: Bitmap, pos: Position) -> bool {
    &&& pixels.cols() >= 1
    &&& pixels.rows() >= 1
    &&& pos.x + pixels.cols() - 1 <= usize::MAX
    &&& pos.y + pixels.rows() - 1 <= usize::MAX
}

/// Taking a sprite apart into its record, its bitmap's dimensions, cells and
/// designated values and its position, gives parts that `Bitmap::from_parts`
/// and `Sprite::from_parts` accept, and from which they rebuild the same
/// dimensions, cells, values and position.
pub proof fn lemma_sprite_record_round_trip(s: Sprite)
    requires
        s.wf(),
    ensures
        parts_match(s.bitmap().cols(), s.bitmap().rows(), s.bitmap().grid().cells()),
        sprite_parts_ok(s.bitmap(), s.position()),
{
}

/// A bitmap placed on the board with its top-left cell at `pos`.
#[derive(Debug)]
pub struct Sprite {
    pixels: Bitmap,
    pos: Position,
    bounds: Rectangle,
}

impl Sprite {
    pub closed spec fn bitmap(&self) -> Bitmap {
        self.pixels
    }

    pub closed spec fn position(&self) -> Position {
        self.pos
    }

    pub closed spec fn rect(&self) -> Rectangle {
        self.bounds
    }

    pub open spec fn wf(&self) -> bool {
        &&& self.bitmap().wf()
        &&& self.bitmap().cols() >= 1
        &&& self.bitmap().rows() >= 1
        &&& self.position().x + self.bitmap().cols() - 1 <= usize::MAX
        &&& self.position().y + self.bitmap().rows() - 1 <= usize::MAX
        &&& self.rect() == bounds_of(self.position(), self.bitmap().cols(), self.bitmap().rows())
    }

    /// Board cell `(x, y)` lies on the sprite.
    pub open spec fn covers(&self, x: int, y: int) -> bool {
        &&& self.position().x <= x < self.position().x + self.bitmap().cols()
        &&& self.position().y <= y < self.position().y + self.bitmap().rows()
    }

    /// The sprite's cell under board cell `(x, y)`.
    pub open spec fn value_at(&self, x: int, y: int) -> u8 {
        self.bitmap().at(x - self.position().x, y - self.position().y)
    }

    /// What a point query at board position `p` answers.
    pub open spec fn pixel_spec(&self, p: Position) -> Option<u8> {
        if self.covers(p.x as int, p.y as int) {
            Some(self.value_at(p.x as int, p.y as int))
        } else {
            None
        }
    }

    /// Board cell `(x, y)` holds one of the sprite's foreground cells.
    pub open spec fn drawn(&self, x: int, y: int) -> bool {
        self.covers(x, y) && self.value_at(x, y) == self.bitmap().fg()
    }

    /// Creates a `cols` by `rows` sprite, all background, with its top-left
    /// cell at `pos`, or at (0, 0) when no position is given.
    pub fn new(cols: usize, rows: usize, fg: u8, bg: u8, pos: Option<Position>) -> (r: Self)
        requires
            cols >= 1,
            rows >= 1,
            cols * rows <= usize::MAX,
            pos matches Some(p) ==> p.x + cols - 1 <= usize::MAX && p.y + rows - 1 <= usize::MAX,
        ensures
            r.wf(),
            r.position() == (match pos {
                Some(p) => p,
                None => Position { x: 0, y: 0 },
            }),
            r.bitmap().cols() == cols,
            r.bitmap().rows() == rows,
            r.bitmap().fg() == fg,
            r.bitmap().bg() == bg,
            r.bitmap().grid().cells() == Seq::new((cols * rows) as nat, |i: int| bg),
    {
        let new_pos = match pos {
            Some(p) => p,
            None => Position { x: 0, y: 0 },
        };
        Sprite {
            pixels: Bitmap::new(cols, rows, fg, bg),
            pos: new_pos,
            bounds: Rectangle {
                top_left: Position { x: new_pos.x, y: new_pos.y },
                // inclusive corner of a zero-indexed rectangle
                bottom_right: Position { x: new_pos.x + (cols - 1), y: new_pos.y + (rows - 1) },
            },
        }
    }

    /// Builds a sprite from a record: its bitmap and its position. The
    /// bounding rectangle is derived from them. Fails when the bitmap is
    /// empty or the rectangle would leave `usize` coordinates.
    pub fn from_parts(pixels: Bitmap, pos: Position) -> (r: Result<Self, RecordError>)
        requires
            pixels.wf(),
        ensures
            r is Ok <==> sprite_parts_ok(pixels, pos),
            r is Err ==> r == Err::<Self, RecordError>(RecordError::BadSpriteExtent),
            r matches Ok(s) ==> s.wf() && s.bitmap() == pixels && s.position() == pos,
    {
        let cols: usize = pixels.get_data().get_cols();
        let rows: usize = pixels.get_data().get_rows();
        if cols == 0 || rows == 0 || usize::MAX - (cols - 1) < pos.x || usize::MAX - (rows - 1)
            < pos.y {
            return Err(RecordError::BadSpriteExtent);
        }
        let bounds = Rectangle {
            top_left: pos,
            bottom_right: Position { x: pos.x + (cols - 1), y: pos.y + (rows - 1) },
        };
        Ok(Sprite { pixels, pos, bounds })
    }

    pub fn get_pixels(&self) -> (r: &Bitmap)
        ensures
            *r == self.bitmap(),
    {
        &self.pixels
    }

    pub fn get_pos(&self) -> (r: &Position)
        ensures
            *r == self.position(),
    {
        &self.pos
    }

    pub fn get_bounds(&self) -> (r: &Rectangle)
        ensures
            *r == self.rect(),
    {
        &self.bounds
    }

    /// The sprite's cell under board position `point`: `None` when the point
    /// lies left of or above the sprite, or beyond its last column or row.
    /// A point is translated to bitmap coordinates as `point - pos`.
    pub fn get_pixel_at(&self, point: &Position) -> (r: Option<u8>)
        requires
            self.wf(),
        ensures
            r == self.pixel_spec(*point),
    {
        if point.get_x() < self.pos.get_x() || point.get_y() < self.pos.get_y() {
            None
        } else {
            let local = Position { x: point.get_x() - self.pos.get_x(), y: point.get_y() - self.pos.get_y() };
            match self.pixels.get_data().get(&local) {
                Ok(v) => Some(v),
                Err(_) => None,
            }
        }
    }

    /// Draws the sprite's bitmap as text.
    pub fn render(&self) -> (r: String)
        requires
            self.wf(),
        ensures
            r@ == self.bitmap().rendered(),
    {
        self.pixels.render()
    }

    /// Whether some board cell holds a foreground cell of both sprites.
    ///
    /// The bounding rectangles are compared first; only when they overlap is
    /// the overlapping part scanned cell by cell.
    pub fn intersect(&self, other: &Sprite) -> (r: bool)
        requires
            self.wf(),
            other.wf(),
        ensures
            r == collide(*self, *other),
    {
        let self_left_side = self.bounds.top_left.x;
        let self_top_side = self.bounds.top_left.y;
        let self_right_side = self.bounds.bottom_right.x;
        let self_bottom_side = self.bounds.bottom_right.y;
        let other_left_side = other.bounds.top_left.x;
        let other_top_side = other.bounds.top_left.y;
        let other_right_side = other.bounds.bottom_right.x;
        let other_bottom_side = other.bounds.bottom_right.y;

        if other_left_side > self_right_side || other_top_side > self_bottom_side
            || other_right_side < self_left_side || other_bottom_side < self_top_side {
            return false;
        }
        let start_x: usize = if self_left_side > other_left_side {
            self_left_side
        } else {
            other_left_side
        };
        let start_y: usize = if self_top_side > other_top_side {
            self_top_side
        } else {
            other_top_side
        };
        let end_x: usize = if self_right_side < other_right_side {
            self_right_side
        } else {
            other_right_side
        };
        let end_y: usize = if self_bottom_side < other_bottom_side {
            self_bottom_side
        } else {
            other_bottom_side
        };
        proof {
            assert(self_right_side == self.pos.x + self.pixels.cols() - 1);
            assert(other_right_side == other.pos.x + other.pixels.cols() - 1);
            assert(self_bottom_side == self.pos.y + self.pixels.rows() - 1);
            assert(other_bottom_side == other.pos.y + other.pixels.rows() - 1);
        }
        let width: usize = end_x - start_x + 1;
        let height: usize = end_y - start_y + 1;
        let self_fg: u8 = self.pixels.get_fg();
        let other_fg: u8 = other.pixels.get_fg();

        let mut dy: usize = 0;
        while dy < height
            invariant
                self.wf(),
                other.wf(),
                start_x + width - 1 == end_x,
                start_y + height - 1 == end_y,
                self_fg == self.bitmap().fg(),
                other_fg == other.bitmap().fg(),
                dy <= height,
                forall|x: int, y: int|
                    start_x <= x <= end_x && start_y <= y < start_y + dy ==> !(#[trigger] self.drawn(
                        x,
                        y,
                    ) && #[trigger] other.drawn(x, y)),
            decreases height - dy,
        {
            let mut dx: usize = 0;
            while dx < width
                invariant
                    self.wf(),
                    other.wf(),
                    start_x + width - 1 == end_x,
                    start_y + height - 1 == end_y,
                    self_fg == self.bitmap().fg(),
                    other_fg == other.bitmap().fg(),
                    dy < height,
                    dx <= width,
                    forall|x: int, y: int|
                        start_x <= x <= end_x && start_y <= y < start_y + dy ==> !(
                        #[trigger] self.drawn(x, y) && #[trigger] other.drawn(x, y)),
                    forall|x: int|
                        start_x <= x < start_x + dx ==> !(#[trigger] self.drawn(x, start_y + dy)
                            && #[trigger] other.drawn(x, start_y + dy)),
                decreases width - dx,
            {
                let point = Position { x: start_x + dx, y: start_y + dy };
                let self_pixel = self.get_pixel_at(&point);
                let other_pixel = other.get_pixel_at(&point);
                let both_fg = match (self_pixel, other_pixel) {
                    (Some(sp), Some(op)) => sp == self_fg && op == other_fg,
                    (_, _) => false,
                };
                if both_fg {
                    proof {
                        assert(self.drawn(point.x as int, point.y as int));
                        assert(other.drawn(point.x as int, point.y as int));
                    }
                    return true;
                }
                dx += 1;
            }
            dy += 1;
        }
        proof {
            assert forall|x: int, y: int| #[trigger] self.drawn(x, y) implies !other.drawn(x, y) by {
                if other.drawn(x, y) {
                    assert(start_x <= x <= end_x && start_y <= y <= end_y);
                }
            }
        }
        false
    }
}

} // verus!

verus! {

/// Sprite `s` lies wholly on `screen`.
pub open spec fn fits(s: Sprite, screen: Bitmap) -> bool {
    &&& s.position().x + s.bitmap().cols() <= screen.cols()
    &&& s.position().y + s.bitmap().rows() <= screen.rows()
}

pub open spec fn all_fit(sprites: Seq<Sprite>, screen: Bitmap) -> bool {
    forall|i: int| 0 <= i < sprites.len() ==> fits(#[trigger] sprites[i], screen)
}

/// Wherever two sprites cover one cell, the earlier one holds `bg` there,
/// so composing them in order never draws over a non-background cell.
pub open spec fn clash_free(sprites: Seq<Sprite>, bg: u8) -> bool {
    forall|i: int, k: int, x: int, y: int|
        #![trigger sprites[i].covers(x, y), sprites[k].covers(x, y)]
        0 <= i < k < sprites.len() && sprites[i].covers(x, y) && sprites[k].covers(x, y)
            ==> sprites[i].value_at(x, y) == bg
}

/// The value that composing `sprites` in order onto a background-filled
/// screen leaves at cell `(x, y)`: that of the last sprite covering the
/// cell, or `bg` where none does.
pub open spec fn paint(sprites: Seq<Sprite>, bg: u8, x: int, y: int) -> u8
    decreases sprites.len(),
{
    if sprites.len() == 0 {
        bg
    } else if sprites.last().covers(x, y) {
        sprites.last().value_at(x, y)
    } else {
        paint(sprites.drop_last(), bg, x, y)
    }
}

/// For sprites that never clash, a cell is painted background exactly when
/// every sprite covering it holds background there.
pub proof fn lemma_paint_bg(sprites: Seq<Sprite>, bg: u8, x: int, y: int)
    requires
        clash_free(sprites, bg),
    ensures
        paint(sprites, bg, x, y) == bg <==> forall|i: int|
            0 <= i < sprites.len() && #[trigger] sprites[i].covers(x, y) ==> sprites[i].value_at(
                x,
                y,
            ) == bg,
    decreases sprites.len(),
{
    if sprites.len() > 0 {
        let rest = sprites.drop_last();
        let k = sprites.len() - 1;
        assert forall|i: int, j: int, a: int, b: int|
            #![trigger rest[i].covers(a, b), rest[j].covers(a, b)]
            0 <= i < j < rest.len() && rest[i].covers(a, b) && rest[j].covers(a, b) implies rest[i].value_at(
                a,
                b,
            ) == bg by {
            assert(sprites[i].covers(a, b) && sprites[j].covers(a, b));
        }
        lemma_paint_bg(rest, bg, x, y);
        if sprites.last().covers(x, y) {
            if paint(sprites, bg, x, y) == bg {
                assert forall|i: int|
                    0 <= i < sprites.len() && #[trigger] sprites[i].covers(x, y) implies sprites[i].value_at(
                        x,
                        y,
                    ) == bg by {
                    if i < k {
                        assert(sprites[k].covers(x, y));
                    }
                }
            }
        } else {
            if forall|j: int|
                0 <= j < sprites.len() && #[trigger] sprites[j].covers(x, y) ==> sprites[j].value_at(
                    x,
                    y,
                ) == bg {
                assert forall|i: int|
                    0 <= i < rest.len() && #[trigger] rest[i].covers(x, y) implies rest[i].value_at(
                        x,
                        y,
                    ) == bg by {
                    assert(sprites[i].covers(x, y));
                }
            }
            if paint(sprites, bg, x, y) == bg {
                assert forall|i: int|
                    0 <= i < sprites.len() && #[trigger] sprites[i].covers(x, y) implies sprites[i].value_at(
                        x,
                        y,
                    ) == bg by {
                    assert(rest[i].covers(x, y));
                }
            }
        }
    }
}

/// A cell covered by no sprite is painted background; one covered by a
/// single sprite is painted with that sprite's cell.
proof fn lemma_paint_cover(sprites: Seq<Sprite>, bg: u8, x: int, y: int)
    ensures
        (forall|j: int| 0 <= j < sprites.len() ==> !#[trigger] sprites[j].covers(x, y)) ==> paint(
            sprites,
            bg,
            x,
            y,
        ) == bg,
        forall|i: int|
            0 <= i < sprites.len() && #[trigger] sprites[i].covers(x, y) && (forall|j: int|
                0 <= j < sprites.len() && j != i ==> !#[trigger] sprites[j].covers(x, y)) ==> paint(
                sprites,
                bg,
                x,
                y,
            ) == sprites[i].value_at(x, y),
    decreases sprites.len(),
{
    if sprites.len() > 0 {
        let rest = sprites.drop_last();
        let k = sprites.len() - 1;
        lemma_paint_cover(rest, bg, x, y);
        if forall|j: int| 0 <= j < sprites.len() ==> !#[trigger] sprites[j].covers(x, y) {
            assert(!sprites[k].covers(x, y));
            assert forall|j: int| 0 <= j < rest.len() implies !#[trigger] rest[j].covers(x, y) by {
                assert(!sprites[j].covers(x, y));
            }
        }
        assert forall|i: int|
            0 <= i < sprites.len() && #[trigger] sprites[i].covers(x, y) && (forall|j: int|
                0 <= j < sprites.len() && j != i ==> !#[trigger] sprites[j].covers(x, y)) implies paint(
            sprites,
            bg,
            x,
            y,
        ) == sprites[i].value_at(x, y) by {
            if i < k {
                assert(!sprites[k].covers(x, y));
                assert(rest[i].covers(x, y));
                assert forall|j: int| 0 <= j < rest.len() && j != i implies !#[trigger] rest[j].covers(
                    x,
                    y,
                ) by {
                    assert(!sprites[j].covers(x, y));
                }
            }
        }
    }
}

/// Sprite `s` has drawn its cells up to, not including, local cell
/// `(lx, ly)` in row-major order, and board cell `(x, y)` is among them.
spec fn drawn_before(s: Sprite, lx: int, ly: int, x: int, y: int) -> bool {
    &&& s.covers(x, y)
    &&& y - s.position().y < ly || (y - s.position().y == ly && x - s.position().x < lx)
}

/// Why the screen could not be composed from the admitted sprites.
#[derive(Debug, Clone, Copy, PartialEq, Eq, Structural)]
pub enum BoardError {
    /// A sprite would be drawn over a screen cell that an earlier sprite
    /// already drew with a non-background value.
    PixelOccupied,
    /// Two sprites claim the same position. No operation here reports it;
    /// it is kept for callers that place sprites by position.
    PosOccupied,
    /// A sprite reaches beyond the screen's columns or rows.
    OutOfRange,
}

/// The game board: the admitted sprites, in order of admission, and the
/// screen they are composed onto.
#[derive(Debug)]
pub struct Board {
    sprites: Vec<Sprite>,
    screen: Bitmap,
}

/// What `update` does: `after` is `before` once the screen has been composed
/// from the sprites, and `r` is the outcome.
pub open spec fn update_post(before: Board, r: Result<(), BoardError>, after: Board) -> bool {
    let sprites = before.sprite_seq();
    let screen = before.screen_bitmap();
    &&& after.wf()
    &&& after.sprite_seq() == sprites
    &&& after.screen_bitmap().cols() == screen.cols()
    &&& after.screen_bitmap().rows() == screen.rows()
    &&& after.screen_bitmap().fg() == screen.fg()
    &&& after.screen_bitmap().bg() == screen.bg()
    &&& !all_fit(sprites, screen) ==> r == Err::<(), BoardError>(BoardError::OutOfRange)
    &&& all_fit(sprites, screen) && !clash_free(sprites, screen.bg()) ==> r == Err::<(), BoardError>(
        BoardError::PixelOccupied,
    )
    &&& r is Err ==> after.screen_bitmap() == screen
    &&& all_fit(sprites, screen) && clash_free(sprites, screen.bg()) ==> {
        &&& r == Ok::<(), BoardError>(())
        &&& forall|x: int, y: int|
            0 <= x < screen.cols() && 0 <= y < screen.rows() ==> #[trigger] after.screen_bitmap().at(x, y)
                == paint(sprites, screen.bg(), x, y)
    }
}

/// After a successful `update`, a screen cell covered by exactly one sprite
/// holds that sprite's cell, and a screen cell covered by no sprite holds
/// the background value.
pub proof fn lemma_update_shows_sprites(before: Board, after: Board, x: int, y: int)
    requires
        before.wf(),
        update_post(before, Ok(()), after),
        0 <= x < before.screen_bitmap().cols(),
        0 <= y < before.screen_bitmap().rows(),
    ensures
        (forall|j: int|
            0 <= j < before.sprite_seq().len() ==> !#[trigger] before.sprite_seq()[j].covers(x, y))
            ==> after.screen_bitmap().at(x, y) == before.screen_bitmap().bg(),
        forall|i: int|
            0 <= i < before.sprite_seq().len() && #[trigger] before.sprite_seq()[i].covers(x, y) && (
            forall|j: int|
                0 <= j < before.sprite_seq().len() && j != i ==> !#[trigger] before.sprite_seq()[j].covers(
                    x,
                    y,
                )) ==> after.screen_bitmap().at(x, y) == before.sprite_seq()[i].value_at(x, y),
{
    lemma_paint_cover(before.sprite_seq(), before.screen_bitmap().bg(), x, y);
}

/// Updating twice in a row, with the sprites left as they are, gives the
/// same outcome both times and byte-identical screens.
pub proof fn lemma_update_idempotent(
    b0: Board,
    r1: Result<(), BoardError>,
    b1: Board,
    r2: Result<(), BoardError>,
    b2: Board,
)
    requires
        b0.wf(),
        update_post(b0, r1, b1),
        update_post(b1, r2, b2),
    ensures
        r2 == r1,
        b2.screen_bitmap().grid().cells() == b1.screen_bitmap().grid().cells(),
{
    let sprites = b0.sprite_seq();
    assert(all_fit(sprites, b0.screen_bitmap()) == all_fit(sprites, b1.screen_bitmap())) by {
        assert forall|i: int| 0 <= i < sprites.len() implies fits(
            #[trigger] sprites[i],
            b0.screen_bitmap(),
        ) == fits(sprites[i], b1.screen_bitmap()) by {}
    }
    if r1 is Ok {
        let s1 = b1.screen_bitmap().grid();
        let s2 = b2.screen_bitmap().grid();
        assert forall|x: int, y: int| 0 <= x < s1.cols() && 0 <= y < s1.rows() implies #[trigger] s1.at(
            x,
            y,
        ) == s2.at(x, y) by {
            assert(b1.screen_bitmap().at(x, y) == b2.screen_bitmap().at(x, y));
        }
        lemma_cells_from_at(s1, s2);
    }
}

impl Board {
    pub closed spec fn sprite_seq(&self) -> Seq<Sprite> {
        self.sprites@
    }

    pub closed spec fn screen_bitmap(&self) -> Bitmap {
        self.screen
    }

    pub open spec fn wf(&self) -> bool {
        &&& self.screen_bitmap().wf()
        &&& forall|i: int| 0 <= i < self.sprite_seq().len() ==> #[trigger] self.sprite_seq()[i].wf()
    }

    /// Creates a board with no sprites and a `cols` by `rows` screen, all
    /// background.
    pub fn new(cols: usize, rows: usize, fg: u8, bg: u8) -> (r: Self)
        requires
            cols * rows <= usize::MAX,
        ensures
            r.wf(),
            r.sprite_seq().len() == 0,
            r.screen_bitmap().cols() == cols,
            r.screen_bitmap().rows() == rows,
            r.screen_bitmap().fg() == fg,
            r.screen_bitmap().bg() == bg,
            r.screen_bitmap().grid().cells() == Seq::new((cols * rows) as nat, |i: int| bg),
    {
        Board { sprites: Vec::new(), screen: Bitmap::new(cols, rows, fg, bg) }
    }

    /// Builds a board from a record: its sprites, in order, and its screen.
    /// The sprites are taken as they are, without admission control.
    pub fn from_parts(sprites: Vec<Sprite>, screen: Bitmap) -> (r: Self)
        requires
            screen.wf(),
            forall|i: int| 0 <= i < sprites@.len() ==> #[trigger] sprites@[i].wf(),
        ensures
            r.wf(),
            r.sprite_seq() == sprites@,
            r.screen_bitmap() == screen,
    {
        Board { sprites, screen }
    }

    pub fn get_sprites(&self) -> (r: &Vec<Sprite>)
        ensures
            r@ == self.sprite_seq(),
    {
        &self.sprites
    }

    pub fn get_screen(&self) -> (r: &Bitmap)
        ensures
            *r == self.screen_bitmap(),
    {
        &self.screen
    }

    /// Draws the screen as text.
    pub fn render(&self) -> (r: String)
        requires
            self.wf(),
        ensures
            r@ == self.screen_bitmap().rendered(),
    {
        self.screen.render()
    }

    /// Admits `newsprite` unless its foreground collides with that of a
    /// sprite already admitted; a rejected sprite is dropped and the board
    /// stays as it was.
    pub fn add_sprite(&mut self, newsprite: Sprite)
        requires
            old(self).wf(),
            newsprite.wf(),
        ensures
            final(self).wf(),
            final(self).screen_bitmap() == old(self).screen_bitmap(),
            (exists|i: int|
                0 <= i < old(self).sprite_seq().len() && collide(
                    #[trigger] old(self).sprite_seq()[i],
                    newsprite,
                )) ==> final(self).sprite_seq() == old(self).sprite_seq(),
            !(exists|i: int|
                0 <= i < old(self).sprite_seq().len() && collide(
                    #[trigger] old(self).sprite_seq()[i],
                    newsprite,
                )) ==> final(self).sprite_seq() == old(self).sprite_seq().push(newsprite),
    {
        let mut i: usize = 0;
        while i < self.sprites.len()
            invariant
                self.wf(),
                newsprite.wf(),
                *self == *old(self),
                i <= self.sprites@.len(),
                forall|j: int| 0 <= j < i ==> !collide(#[trigger] self.sprites@[j], newsprite),
            decreases self.sprites@.len() - i,
        {
            if self.sprites[i].intersect(&newsprite) {
                return;
            }
            i += 1;
        }
        self.sprites.push(newsprite);
    }

    /// Composes the screen afresh: starting from an all-background screen,
    /// each sprite in order of admission copies its cells onto the screen at
    /// its position. Before each write the screen cell must still hold the
    /// background value.
    ///
    /// Fails with `OutOfRange` when a sprite reaches beyond the screen, and
    /// with `PixelOccupied` when a sprite would draw over a cell that an
    /// earlier sprite left non-background; the screen is then unchanged.
    pub fn update(&mut self) -> (r: Result<(), BoardError>)
        requires
            old(self).wf(),
        ensures
            update_post(*old(self), r, *final(self)),
    {
        let cols: usize = self.screen.get_data().get_cols();
        let rows: usize = self.screen.get_data().get_rows();
        let n: usize = self.sprites.len();
        let mut i: usize = 0;
        while i < n
            invariant
                self.wf(),
                n == self.sprites@.len(),
                cols == self.screen.cols(),
                rows == self.screen.rows(),
                i <= n,
                forall|j: int| 0 <= j < i ==> fits(#[trigger] self.sprites@[j], self.screen),
            decreases n - i,
        {
            let s = &self.sprites[i];
            let c: usize = s.pixels.get_data().get_cols();
            let r: usize = s.pixels.get_data().get_rows();
            if s.pos.x > cols || c > cols - s.pos.x || s.pos.y > rows || r > rows - s.pos.y {
                return Err(BoardError::OutOfRange);
            }
            i += 1;
        }

        let bg: u8 = self.screen.get_bg();
        let mut work = Bitmap::new(cols, rows, self.screen.get_fg(), bg);
        let ghost sprites = self.sprites@;
        proof {
            assert forall|x: int, y: int| 0 <= x < cols && 0 <= y < rows implies #[trigger] work.at(x, y)
                == paint(sprites.subrange(0, 0), bg, x, y) by {
                lemma_offset(cols as int, rows as int, x, y, 0, 0);
            }
        }
        let mut k: usize = 0;
        while k < n
            invariant
                self.wf(),
                *self == *old(self),
                sprites == self.sprites@,
                n == sprites.len(),
                k <= n,
                cols == self.screen.cols(),
                rows == self.screen.rows(),
                bg == self.screen.bg(),
                all_fit(sprites, self.screen),
                work.wf(),
                work.cols() == cols,
                work.rows() == rows,
                work.fg() == self.screen.fg(),
                work.bg() == bg,
                clash_free(sprites.subrange(0, k as int), bg),
                forall|x: int, y: int|
                    0 <= x < cols && 0 <= y < rows ==> #[trigger] work.at(x, y) == paint(
                        sprites.subrange(0, k as int),
                        bg,
                        x,
                        y,
                    ),
            decreases n - k,
        {
            let s = &self.sprites[k];
            let ghost prefix = sprites.subrange(0, k as int);
            let c: usize = s.pixels.get_data().get_cols();
            let r: usize = s.pixels.get_data().get_rows();
            let px: usize = s.pos.x;
            let py: usize = s.pos.y;
            proof {
                assert(fits(sprites[k as int], self.screen));
                assert(self.sprite_seq()[k as int].wf());
            }
            let mut ly: usize = 0;
            while ly < r
                invariant
                    self.wf(),
                    *self == *old(self),
                    sprites == self.sprites@,
                    n == sprites.len(),
                    k < n,
                    *s == sprites[k as int],
                    s.wf(),
                    prefix == sprites.subrange(0, k as int),
                    c == s.bitmap().cols(),
                    r == s.bitmap().rows(),
                    px == s.position().x,
                    py == s.position().y,
                    px + c <= cols,
                    py + r <= rows,
                    ly <= r,
                    cols == self.screen.cols(),
                    rows == self.screen.rows(),
                    bg == self.screen.bg(),
                    all_fit(sprites, self.screen),
                    work.wf(),
                    work.cols() == cols,
                    work.rows() == rows,
                    work.fg() == self.screen.fg(),
                    work.bg() == bg,
                    clash_free(prefix, bg),
                    forall|x: int, y: int|
                        0 <= x < cols && 0 <= y < rows ==> #[trigger] work.at(x, y) == if drawn_before(
                            *s,
                            0,
                            ly as int,
                            x,
                            y,
                        ) {
                            s.value_at(x, y)
                        } else {
                            paint(prefix, bg, x, y)
                        },
                    forall|x: int, y: int|
                        #[trigger] drawn_before(*s, 0, ly as int, x, y) ==> paint(prefix, bg, x, y)
                            == bg,
                decreases r - ly,
            {
                let mut lx: usize = 0;
                while lx < c
                    invariant
                        self.wf(),
                        *self == *old(self),
                        sprites == self.sprites@,
                        n == sprites.len(),
                        k < n,
                        *s == sprites[k as int],
                        s.wf(),
                        prefix == sprites.subrange(0, k as int),
                        c == s.bitmap().cols(),
                        r == s.bitmap().rows(),
                        px == s.position().x,
                        py == s.position().y,
                        px + c <= cols,
                        py + r <= rows,
                        ly < r,
                        lx <= c,
                        cols == self.screen.cols(),
                        rows == self.screen.rows(),
                        bg == self.screen.bg(),
                        all_fit(sprites, self.screen),
                        work.wf(),
                        work.cols() == cols,
                        work.rows() == rows,
                        work.fg() == self.screen.fg(),
                        work.bg() == bg,
                        clash_free(prefix, bg),
                        forall|x: int, y: int|
                            0 <= x < cols && 0 <= y < rows ==> #[trigger] work.at(x, y) == if drawn_before(
                                *s,
                                lx as int,
                                ly as int,
                                x,
                                y,
                            ) {
                                s.value_at(x, y)
                            } else {
                                paint(prefix, bg, x, y)
                            },
                        forall|x: int, y: int|
                            #[trigger] drawn_before(*s, lx as int, ly as int, x, y) ==> paint(
                                prefix,
                                bg,
                                x,
                                y,
                            ) == bg,
                    decreases c - lx,
                {
                    let target = Position { x: px + lx, y: py + ly };
                    let ghost tx = target.x as int;
                    let ghost ty = target.y as int;
                    assert(work.at(tx, ty) == paint(prefix, bg, tx, ty));
                    let current: u8 = work.get_data().get(&target).unwrap();
                    if current != bg {
                        proof {
                            lemma_paint_bg(prefix, bg, tx, ty);
                            let i = choose|i: int|
                                0 <= i < prefix.len() && #[trigger] prefix[i].covers(tx, ty)
                                    && prefix[i].value_at(tx, ty) != bg;
                            assert(sprites[i].covers(tx, ty) && sprites[k as int].covers(tx, ty));
                        }
                        return Err(BoardError::PixelOccupied);
                    }
                    let value: u8 = s.pixels.get_data().get(&Position { x: lx, y: ly }).unwrap();
                    proof {
                        lemma_offset(cols as int, rows as int, tx, ty, 0, 0);
                    }
                    let ghost before = work;
                    let _ = work.get_data_mut().set(&target, value);
                    proof {
                        assert(work.grid().cells() == before.grid().cells().update(
                            before.grid().offset(target),
                            value,
                        ));
                        assert forall|x: int, y: int|
                            #[trigger] drawn_before(*s, lx + 1, ly as int, x, y) implies paint(
                                prefix,
                                bg,
                                x,
                                y,
                            ) == bg by {
                            if !(x == tx && y == ty) {
                                assert(drawn_before(*s, lx as int, ly as int, x, y));
                            }
                        }
                        assert forall|x: int, y: int|
                            0 <= x < cols && 0 <= y < rows implies #[trigger] work.at(x, y) == if drawn_before(
                                *s,
                                lx + 1,
                                ly as int,
                                x,
                                y,
                            ) {
                                s.value_at(x, y)
                            } else {
                                paint(prefix, bg, x, y)
                            } by {
                            lemma_offset(cols as int, rows as int, tx, ty, x, y);
                            lemma_offset(cols as int, rows as int, x, y, tx, ty);
                            if !(x == tx && y == ty) {
                                assert(work.at(x, y) == before.at(x, y));
                                assert(drawn_before(*s, lx + 1, ly as int, x, y) == drawn_before(
                                    *s,
                                    lx as int,
                                    ly as int,
                                    x,
                                    y,
                                ));
                            }
                        }
                    }
                    lx += 1;
                }
                proof {
                    assert forall|x: int, y: int| #[trigger]
                        drawn_before(*s, 0, ly + 1, x, y) implies paint(prefix, bg, x, y) == bg by {
                        assert(drawn_before(*s, c as int, ly as int, x, y));
                    }
                    assert forall|x: int, y: int|
                        drawn_before(*s, 0, ly + 1, x, y) <==> #[trigger] drawn_before(
                            *s,
                            c as int,
                            ly as int,
                            x,
                            y,
                        ) by {}
                }
                ly += 1;
            }
            proof {
                let next = sprites.subrange(0, k + 1);
                assert(next.drop_last() =~= prefix);
                assert forall|i: int, j: int, x: int, y: int|
                    #![trigger next[i].covers(x, y), next[j].covers(x, y)]
                    0 <= i < j < next.len() && next[i].covers(x, y) && next[j].covers(x, y) implies next[i].value_at(
                        x,
                        y,
                    ) == bg by {
                    if j < k {
                        assert(prefix[i].covers(x, y) && prefix[j].covers(x, y));
                    } else {
                        assert(drawn_before(*s, 0, r as int, x, y));
                        lemma_paint_bg(prefix, bg, x, y);
                        assert(prefix[i].covers(x, y));
                    }
                }
                assert forall|x: int, y: int|
                    0 <= x < cols && 0 <= y < rows implies #[trigger] work.at(x, y) == paint(
                        next,
                        bg,
                        x,
                        y,
                    ) by {
                    if s.covers(x, y) {
                        assert(drawn_before(*s, 0, r as int, x, y));
                    }
                }
            }
            k += 1;
        }
        proof {
            assert(sprites.subrange(0, n as int) =~= sprites);
        }
        self.screen = work;
        proof {
            assert forall|j: int| 0 <= j < self.sprite_seq().len() implies #[trigger] self.sprite_seq()[j].wf() by {
                assert(old(self).sprite_seq()[j].wf());
            }
        }
        Ok(())
    }
}

} // verus!
