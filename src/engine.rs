use vstd::arithmetic::div_mod::{lemma_fundamental_div_mod, lemma_mod_bound};
use vstd::prelude::*;

verus! {

/// A position on the board: `x` grows to the right, `y` grows downwards,
/// and (0, 0) is the top-left cell.
#[derive(Debug, Clone, Copy, PartialEq, Eq, Structural)]
pub struct Position {
    pub x: usize,
    pub y: usize,
}

impl Position {
    pub fn get_x(&self) -> (r: usize)
        ensures
            r == self.x,
    {
        self.x
    }

    pub fn get_y(&self) -> (r: usize)
        ensures
            r == self.y,
    {
        self.y
    }
}

/// An axis-aligned rectangle with inclusive corners.
#[derive(Debug, Clone, Copy, PartialEq, Eq, Structural)]
pub struct Rectangle {
    pub top_left: Position,
    pub bottom_right: Position,
}


/// Why an access to a grid cell failed.
#[derive(Debug, Clone, Copy, PartialEq, Eq, Structural)]
pub enum GridError {
    /// The position lies outside the grid's columns or rows.
    OutOfRange,
    /// The grid was created without a fill value and holds no cells yet.
    Uninitialized,
}

/// Why a record could not be turned into a grid, bitmap or sprite.
#[derive(Debug, Clone, Copy, PartialEq, Eq, Structural)]
pub enum RecordError {
    /// The number of cells differs from `cols * rows`.
    DimensionMismatch,
    /// A sprite needs at least one column and one row, and its bounding
    /// rectangle must fit in `usize` coordinates.
    BadSpriteExtent,
}

/// A record of a grid: `elements` holds exactly `cols * rows` cells.
pub open spec fn parts_match<T>(cols: nat, rows: nat, elements: Seq<T>) -> bool {
    elements.len() == cols * rows
}

/// Row-major offset of cell `(x, y)` in a grid with `cols` columns.
pub open spec fn offset_of(cols: int, x: int, y: int) -> int {
    y * cols + x
}

/// Offsets of in-range cells lie inside the grid and differ for different cells.
pub proof fn lemma_offset(cols: int, rows: int, x1: int, y1: int, x2: int, y2: int)
    requires
        0 <= x1 < cols,
        0 <= y1 < rows,
        0 <= x2 < cols,
        0 <= y2 < rows,
    ensures
        0 <= offset_of(cols, x1, y1) < cols * rows,
        offset_of(cols, x1, y1) == offset_of(cols, x2, y2) ==> x1 == x2 && y1 == y2,
{
    assert(0 <= y1 * cols + x1 < cols * rows) by (nonlinear_arith)
        requires
            0 <= x1 < cols,
            0 <= y1 < rows,
    ;
    if y1 < y2 {
        assert(y1 * cols + x1 < y2 * cols + x2) by (nonlinear_arith)
            requires
                0 <= x1 < cols,
                0 <= x2,
                y1 < y2,
        ;
    } else if y2 < y1 {
        assert(y2 * cols + x2 < y1 * cols + x1) by (nonlinear_arith)
            requires
                0 <= x2 < cols,
                0 <= x1,
                y2 < y1,
        ;
    }
}

/// A fixed-size two-dimensional array stored row by row.
///
/// `rows` is the number of `y` indices and `cols` the number of `x` indices.
/// A grid holds either all `cols * rows` cells or, when created without a
/// fill value, none at all.
#[derive(Debug)]
pub struct Array2D<T: Copy> {
    elements: Vec<T>,
    rows: usize,
    cols: usize,
}

impl<T: Copy> Array2D<T> {
    pub closed spec fn cols(&self) -> nat {
        self.cols as nat
    }

    pub closed spec fn rows(&self) -> nat {
        self.rows as nat
    }

    /// The cells, row after row.
    pub closed spec fn cells(&self) -> Seq<T> {
        self.elements@
    }

    pub open spec fn is_filled(&self) -> bool {
        self.cells().len() == self.cols() * self.rows()
    }

    pub open spec fn wf(&self) -> bool {
        &&& self.is_filled() || self.cells().len() == 0
        &&& self.cols() * self.rows() <= usize::MAX
        &&& self.cols() <= usize::MAX
        &&& self.rows() <= usize::MAX
    }

    pub open spec fn pos_in_range(&self, p: Position) -> bool {
        p.x < self.cols() && p.y < self.rows()
    }

    pub open spec fn offset(&self, p: Position) -> int {
        offset_of(self.cols() as int, p.x as int, p.y as int)
    }

    /// The cell at `(x, y)`.
    pub open spec fn at(&self, x: int, y: int) -> T {
        self.cells()[offset_of(self.cols() as int, x, y)]
    }

    /// Creates a `cols` by `rows` grid. With `default.0` set every cell holds
    /// `default.1`; otherwise the grid holds no cells and every access fails.
    pub fn new(cols: usize, rows: usize, default: (bool, T)) -> (r: Self)
        requires
            cols * rows <= usize::MAX,
        ensures
            r.wf(),
            r.cols() == cols,
            r.rows() == rows,
            default.0 ==> r.cells() == Seq::new((cols * rows) as nat, |i: int| default.1),
            !default.0 ==> r.cells().len() == 0,
    {
        let n: usize = rows * cols;
        let mut elements: Vec<T> = Vec::with_capacity(n);
        if default.0 {
            let mut i: usize = 0;
            while i < n
                invariant
                    i <= n,
                    elements@ == Seq::new(i as nat, |k: int| default.1),
                decreases n - i,
            {
                elements.push(default.1);
                i += 1;
            }
        }
        proof {
            assert(cols * rows == rows * cols) by (nonlinear_arith);
        }
        Array2D { elements, rows, cols }
    }

    /// Builds a grid from its cells, row after row; fails when their number
    /// is not `cols * rows`.
    pub fn from_parts(cols: usize, rows: usize, elements: Vec<T>) -> (r: Result<Self, RecordError>)
        ensures
            r is Ok <==> parts_match(cols as nat, rows as nat, elements@),
            r is Err ==> r == Err::<Self, RecordError>(RecordError::DimensionMismatch),
            r matches Ok(g) ==> {
                &&& g.wf()
                &&& g.cols() == cols
                &&& g.rows() == rows
                &&& g.cells() == elements@
            },
    {
        let len: usize = elements.len();
        match cols.checked_mul(rows) {
            Some(n) => {
                if n == len {
                    Ok(Array2D { elements, rows, cols })
                } else {
                    Err(RecordError::DimensionMismatch)
                }
            },
            None => Err(RecordError::DimensionMismatch),
        }
    }

    pub fn in_range(&self, index: &Position) -> (r: bool)
        ensures
            r == self.pos_in_range(*index),
    {
        index.x < self.cols && index.y < self.rows
    }

    pub fn get_elements(&self) -> (r: &Vec<T>)
        ensures
            r@ == self.cells(),
    {
        &self.elements
    }

    pub fn get_rows(&self) -> (r: usize)
        ensures
            r == self.rows(),
    {
        self.rows
    }

    pub fn get_cols(&self) -> (r: usize)
        ensures
            r == self.cols(),
    {
        self.cols
    }

    /// What reading the cell at `p` gives.
    pub open spec fn get_spec(&self, p: Position) -> Result<T, GridError> {
        if !self.pos_in_range(p) {
            Err(GridError::OutOfRange)
        } else if !self.is_filled() {
            Err(GridError::Uninitialized)
        } else {
            Ok(self.cells()[self.offset(p)])
        }
    }

    /// Reads the cell at `pos`: `OutOfRange` when `pos` lies outside the
    /// grid, `Uninitialized` when the grid holds no cells.
    pub fn get(&self, pos: &Position) -> (r: Result<T, GridError>)
        requires
            self.wf(),
        ensures
            r == self.get_spec(*pos),
    {
        if !self.in_range(pos) {
            return Err(GridError::OutOfRange);
        }
        proof {
            lemma_offset(self.cols as int, self.rows as int, pos.x as int, pos.y as int, 0, 0);
        }
        if self.elements.len() == 0 {
            return Err(GridError::Uninitialized);
        }
        Ok(self.elements[pos.y * self.cols + pos.x])
    }

    /// Writes `value` into the cell at `pos`; on failure the grid is unchanged.
    pub fn set(&mut self, pos: &Position, value: T) -> (r: Result<(), GridError>)
        requires
            old(self).wf(),
        ensures
            final(self).wf(),
            final(self).cols() == old(self).cols(),
            final(self).rows() == old(self).rows(),
            !old(self).pos_in_range(*pos) ==> r == Err::<(), GridError>(GridError::OutOfRange),
            old(self).pos_in_range(*pos) && !old(self).is_filled() ==> r == Err::<(), GridError>(
                GridError::Uninitialized,
            ),
            r is Err ==> final(self).cells() == old(self).cells(),
            old(self).pos_in_range(*pos) && old(self).is_filled() ==> {
                &&& r is Ok
                &&& final(self).cells() == old(self).cells().update(old(self).offset(*pos), value)
            },
    {
        if !self.in_range(pos) {
            return Err(GridError::OutOfRange);
        }
        proof {
            lemma_offset(self.cols as int, self.rows as int, pos.x as int, pos.y as int, 0, 0);
        }
        if self.elements.len() == 0 {
            return Err(GridError::Uninitialized);
        }
        let i: usize = pos.y * self.cols + pos.x;
        self.elements.set(i, value);
        Ok(())
    }
}

/// Two grids of the same dimensions whose cells agree at every position
/// hold the same cells.
pub proof fn lemma_cells_from_at<T: Copy>(a: Array2D<T>, b: Array2D<T>)
    requires
        a.wf(),
        b.wf(),
        a.is_filled(),
        b.is_filled(),
        a.cols() == b.cols(),
        a.rows() == b.rows(),
        forall|x: int, y: int|
            0 <= x < a.cols() && 0 <= y < a.rows() ==> #[trigger] a.at(x, y) == b.at(x, y),
    ensures
        a.cells() == b.cells(),
{
    let c = a.cols() as int;
    let rows = a.rows() as int;
    assert forall|k: int| 0 <= k < a.cells().len() implies a.cells()[k] == b.cells()[k] by {
        lemma_fundamental_div_mod(k, c);
        lemma_mod_bound(k, c);
        let x = k % c;
        let y = k / c;
        assert(0 <= y < rows) by (nonlinear_arith)
            requires
                k == c * y + x,
                0 <= x < c,
                0 <= k < c * rows,
        ;
        assert(y * c == c * y) by (nonlinear_arith);
        assert(offset_of(c, x, y) == k);
        assert(a.at(x, y) == b.at(x, y));
    }
    assert(a.cells() =~= b.cells());
}

/// Reading a cell right after writing it gives the value written.
pub proof fn lemma_set_then_get<T: Copy>(
    before: Array2D<T>,
    after: Array2D<T>,
    pos: Position,
    value: T,
)
    requires
        before.wf(),
        before.is_filled(),
        before.pos_in_range(pos),
        after.cols() == before.cols(),
        after.rows() == before.rows(),
        after.cells() == before.cells().update(before.offset(pos), value),
    ensures
        after.get_spec(pos) == Ok::<T, GridError>(value),
{
    lemma_offset(before.cols() as int, before.rows() as int, pos.x as int, pos.y as int, 0, 0);
}

impl<T: Copy> Clone for Array2D<T> {
    /// An independent copy with the same dimensions and cells.
    fn clone(&self) -> (r: Self)
        ensures
            r.cols() == self.cols(),
            r.rows() == self.rows(),
            r.cells() == self.cells(),
    {
        let mut elements: Vec<T> = Vec::with_capacity(self.elements.len());
        let mut i: usize = 0;
        while i < self.elements.len()
            invariant
                i <= self.elements@.len(),
                elements@ == self.elements@.subrange(0, i as int),
            decreases self.elements@.len() - i,
        {
            elements.push(self.elements[i]);
            i += 1;
        }
        proof {
            assert(elements@ =~= self.elements@);
        }
        Array2D { elements, rows: self.rows, cols: self.cols }
    }
}


/// The glyph a bitmap shows for cell value `v`.
pub open spec fn glyph(v: u8, fg: u8, bg: u8) -> char {
    if v == fg {
        '#'
    } else if v == bg {
        ' '
    } else {
        '?'
    }
}

pub open spec fn dashes(n: nat) -> Seq<char> {
    Seq::new(n, |i: int| '-')
}

/// Appends character `c`, one of those that rendered bitmaps are made of.
fn push_char(out: &mut String, c: char)
    requires
        c == '#' || c == ' ' || c == '?' || c == '-' || c == '|' || c == '\n',
    ensures
        final(out)@ == old(out)@.push(c),
{
    proof {
        reveal_strlit("#");
        reveal_strlit(" ");
        reveal_strlit("?");
        reveal_strlit("-");
        reveal_strlit("|");
        reveal_strlit("\n");
    }
    if c == '#' {
        out.append("#");
    } else if c == ' ' {
        out.append(" ");
    } else if c == '?' {
        out.append("?");
    } else if c == '-' {
        out.append("-");
    } else if c == '|' {
        out.append("|");
    } else {
        out.append("\n");
    }
}

/// The decimal digit `d`.
pub open spec fn digit(d: int) -> char {
    seq!['0', '1', '2', '3', '4', '5', '6', '7', '8', '9'][d]
}

/// `v` written in decimal, without leading zeros.
pub open spec fn decimal(v: u8) -> Seq<char> {
    if v < 10 {
        seq![digit(v as int)]
    } else if v < 100 {
        seq![digit(v as int / 10), digit(v as int % 10)]
    } else {
        seq![digit(v as int / 100), digit((v as int / 10) % 10), digit(v as int % 10)]
    }
}

/// Appends the decimal digit `d`.
fn push_digit(out: &mut String, d: u8)
    requires
        d < 10,
    ensures
        final(out)@ == old(out)@.push(digit(d as int)),
{
    proof {
        reveal_strlit("0");
        reveal_strlit("1");
        reveal_strlit("2");
        reveal_strlit("3");
        reveal_strlit("4");
        reveal_strlit("5");
        reveal_strlit("6");
        reveal_strlit("7");
        reveal_strlit("8");
        reveal_strlit("9");
    }
    match d {
        0 => out.append("0"),
        1 => out.append("1"),
        2 => out.append("2"),
        3 => out.append("3"),
        4 => out.append("4"),
        5 => out.append("5"),
        6 => out.append("6"),
        7 => out.append("7"),
        8 => out.append("8"),
        _ => out.append("9"),
    }
}

/// Appends `v` in decimal.
fn push_decimal(out: &mut String, v: u8)
    ensures
        final(out)@ == old(out)@ + decimal(v),
{
    if v >= 100 {
        push_digit(out, v / 100);
    }
    if v >= 10 {
        push_digit(out, (v / 10) % 10);
    }
    push_digit(out, v % 10);
    proof {
        assert(final(out)@ =~= old(out)@ + decimal(v));
    }
}

/// The text of the first `n` cells of a grid with `cols` columns: each
/// value in decimal followed by a space, with a line break and two spaces
/// before each row but the first.
pub open spec fn cells_text(cells: Seq<u8>, cols: nat, n: nat) -> Seq<char>
    decreases n,
{
    if n == 0 {
        Seq::empty()
    } else {
        let i = n - 1;
        let sep = if i != 0 && i % (cols as int) == 0 {
            seq!['\n', ' ', ' ']
        } else {
            Seq::empty()
        };
        cells_text(cells, cols, i as nat) + sep + decimal(cells[i]) + seq![' ']
    }
}

impl Array2D<u8> {
    /// The text `render` produces.
    pub open spec fn rendered(&self) -> Seq<char> {
        seq!['\n', '[', ' '] + cells_text(self.cells(), self.cols(), self.cells().len()) + seq![']']
    }

    /// Writes the cells in decimal, one row per line, inside brackets.
    pub fn render(&self) -> (r: String)
        requires
            self.wf(),
        ensures
            r@ == self.rendered(),
    {
        let mut out = String::new();
        proof {
            reveal_strlit("\n[ ");
        }
        out.append("\n[ ");
        let n: usize = self.elements.len();
        let mut i: usize = 0;
        while i < n
            invariant
                self.wf(),
                n == self.cells().len(),
                i <= n,
                out@ == seq!['\n', '[', ' '] + cells_text(self.cells(), self.cols(), i as nat),
            decreases n - i,
        {
            proof {
                reveal_strlit("\n  ");
                reveal_strlit(" ");
            }
            if i != 0 && i % self.cols == 0 {
                out.append("\n  ");
            }
            push_decimal(&mut out, self.elements[i]);
            out.append(" ");
            proof {
                assert(out@ =~= seq!['\n', '[', ' '] + cells_text(self.cells(), self.cols(), (i + 1) as nat));
            }
            i += 1;
        }
        proof {
            reveal_strlit("]");
        }
        out.append("]");
        out
    }
}

/// A grid of byte cells with two designated values: `foreground` marks drawn
/// cells and `background` empty ones. A cell may hold any other byte too.
#[derive(Debug)]
pub struct Bitmap {
    data: Array2D<u8>,
    foreground: u8,
    background: u8,
}

impl Bitmap {
    pub closed spec fn grid(&self) -> Array2D<u8> {
        self.data
    }

    pub closed spec fn fg(&self) -> u8 {
        self.foreground
    }

    pub closed spec fn bg(&self) -> u8 {
        self.background
    }

    pub open spec fn wf(&self) -> bool {
        self.grid().wf() && self.grid().is_filled()
    }

    pub open spec fn cols(&self) -> nat {
        self.grid().cols()
    }

    pub open spec fn rows(&self) -> nat {
        self.grid().rows()
    }

    /// The cell at `(x, y)`.
    pub open spec fn at(&self, x: int, y: int) -> u8 {
        self.grid().at(x, y)
    }

    /// Row `y` as glyphs.
    pub open spec fn row_text(&self, y: int) -> Seq<char> {
        Seq::new(self.cols(), |x: int| glyph(self.at(x, y), self.fg(), self.bg()))
    }

    /// The first `n` rows, each framed as `|...|` and ended by a line break.
    pub open spec fn rows_text(&self, n: nat) -> Seq<char>
        decreases n,
    {
        if n == 0 {
            Seq::empty()
        } else {
            self.rows_text((n - 1) as nat) + seq!['|'] + self.row_text(n - 1) + seq!['|', '\n']
        }
    }

    /// The text `render` produces: a line of dashes, the framed rows (a
    /// single empty row `||` when the bitmap has no cells), and another line
    /// of dashes.
    pub open spec fn rendered(&self) -> Seq<char> {
        let body = if self.cols() * self.rows() == 0 {
            seq!['|', '|', '\n']
        } else {
            self.rows_text(self.rows())
        };
        dashes(self.cols() + 2) + seq!['\n'] + body + dashes(self.cols() + 2) + seq!['\n']
    }

    /// Creates a `cols` by `rows` bitmap with every cell set to `background`.
    pub fn new(cols: usize, rows: usize, foreground: u8, background: u8) -> (r: Self)
        requires
            cols * rows <= usize::MAX,
        ensures
            r.wf(),
            r.cols() == cols,
            r.rows() == rows,
            r.fg() == foreground,
            r.bg() == background,
            r.grid().cells() == Seq::new((cols * rows) as nat, |i: int| background),
    {
        Bitmap {
            data: Array2D::new(cols, rows, (true, background)),
            foreground,
            background,
        }
    }

    /// Builds a bitmap from a record: its dimensions, its cells row after
    /// row, and its two designated values. Fails when the number of cells
    /// is not `cols * rows`.
    pub fn from_parts(cols: usize, rows: usize, elements: Vec<u8>, foreground: u8, background: u8)
        -> (r: Result<Self, RecordError>)
        ensures
            r is Ok <==> parts_match(cols as nat, rows as nat, elements@),
            r is Err ==> r == Err::<Self, RecordError>(RecordError::DimensionMismatch),
            r matches Ok(b) ==> {
                &&& b.wf()
                &&& b.cols() == cols
                &&& b.rows() == rows
                &&& b.grid().cells() == elements@
                &&& b.fg() == foreground
                &&& b.bg() == background
            },
    {
        match Array2D::from_parts(cols, rows, elements) {
            Ok(data) => Ok(Bitmap { data, foreground, background }),
            Err(e) => Err(e),
        }
    }

    pub fn get_data(&self) -> (r: &Array2D<u8>)
        ensures
            *r == self.grid(),
    {
        &self.data
    }

    /// Lends the grid out for writing; the designated values stay as they are.
    pub fn get_data_mut(&mut self) -> (r: &mut Array2D<u8>)
        ensures
            *r == old(self).grid(),
            final(self).grid() == *final(r),
            final(self).fg() == old(self).fg(),
            final(self).bg() == old(self).bg(),
    {
        &mut self.data
    }

    pub fn get_fg(&self) -> (r: u8)
        ensures
            r == self.fg(),
    {
        self.foreground
    }

    pub fn get_fg_mut(&mut self) -> (r: &mut u8)
        ensures
            *r == old(self).fg(),
            final(self).fg() == *final(r),
            final(self).grid() == old(self).grid(),
            final(self).bg() == old(self).bg(),
    {
        &mut self.foreground
    }

    pub fn get_bg(&self) -> (r: u8)
        ensures
            r == self.bg(),
    {
        self.background
    }

    pub fn get_bg_mut(&mut self) -> (r: &mut u8)
        ensures
            *r == old(self).bg(),
            final(self).bg() == *final(r),
            final(self).grid() == old(self).grid(),
            final(self).fg() == old(self).fg(),
    {
        &mut self.background
    }

    /// Draws the bitmap as text: `#` for a foreground cell, a space for a
    /// background cell and `?` for any other value, inside a frame.
    pub fn render(&self) -> (r: String)
        requires
            self.wf(),
        ensures
            r@ == self.rendered(),
    {
        let cols: usize = self.data.get_cols();
        let rows: usize = self.data.get_rows();
        let mut out = String::new();
        self.push_dashes(&mut out);
        push_char(&mut out, '\n');
        let ghost head = out@;
        if cols == 0 || rows == 0 {
            proof {
                assert(self.cols() * self.rows() == 0) by (nonlinear_arith)
                    requires
                        self.cols() == 0 || self.rows() == 0,
                ;
            }
            push_char(&mut out, '|');
            push_char(&mut out, '|');
            push_char(&mut out, '\n');
        } else {
            proof {
                assert(self.cols() * self.rows() != 0) by (nonlinear_arith)
                    requires
                        self.cols() > 0 && self.rows() > 0,
                ;
            }
            let mut y: usize = 0;
            while y < rows
                invariant
                    self.wf(),
                    cols == self.cols(),
                    rows == self.rows(),
                    y <= rows,
                    out@ == head + self.rows_text(y as nat),
                decreases rows - y,
            {
                let ghost before = out@;
                push_char(&mut out, '|');
                let mut x: usize = 0;
                while x < cols
                    invariant
                        self.wf(),
                        cols == self.cols(),
                        rows == self.rows(),
                        y < rows,
                        x <= cols,
                        out@ == before + seq!['|'] + self.row_text(y as int).subrange(0, x as int),
                    decreases cols - x,
                {
                    proof {
                        lemma_offset(cols as int, rows as int, x as int, y as int, 0, 0);
                    }
                    let bit: u8 = self.data.elements[y * cols + x];
                    if bit == self.foreground {
                        push_char(&mut out, '#');
                    } else if bit == self.background {
                        push_char(&mut out, ' ');
                    } else {
                        push_char(&mut out, '?');
                    }
                    proof {
                        assert(self.row_text(y as int).subrange(0, x + 1) =~= self.row_text(
                            y as int,
                        ).subrange(0, x as int).push(glyph(bit, self.fg(), self.bg())));
                    }
                    x += 1;
                }
                push_char(&mut out, '|');
                push_char(&mut out, '\n');
                proof {
                    assert(self.row_text(y as int).subrange(0, cols as int) =~= self.row_text(y as int));
                    assert(out@ =~= head + self.rows_text((y + 1) as nat));
                }
                y += 1;
            }
        }
        let ghost mid = out@;
        self.push_dashes(&mut out);
        push_char(&mut out, '\n');
        proof {
            assert(out@ =~= self.rendered());
        }
        out
    }

    /// Appends a line of `cols + 2` dashes, the width of the framed rows.
    fn push_dashes(&self, out: &mut String)
        requires
            self.wf(),
        ensures
            final(out)@ == old(out)@ + dashes(self.cols() + 2),
    {
        proof {
            assert(old(out)@.push('-').push('-') =~= old(out)@ + dashes(2));
        }
        let cols: usize = self.data.get_cols();
        push_char(out, '-');
        push_char(out, '-');
        let mut i: usize = 0;
        while i < cols
            invariant
                self.wf(),
                cols == self.cols(),
                i <= cols,
                out@ == old(out)@ + dashes((i + 2) as nat),
            decreases cols - i,
        {
            push_char(out, '-');
            proof {
                assert(dashes((i + 3) as nat) =~= dashes((i + 2) as nat).push('-'));
            }
            i += 1;
        }
    }

    /// Sets every cell to the background value; the dimensions and the two
    /// designated values are kept.
    pub fn reset(&mut self)
        requires
            old(self).wf(),
        ensures
            final(self).wf(),
            final(self).cols() == old(self).cols(),
            final(self).rows() == old(self).rows(),
            final(self).fg() == old(self).fg(),
            final(self).bg() == old(self).bg(),
            final(self).grid().cells() == Seq::new(
                old(self).grid().cells().len(),
                |i: int| old(self).bg(),
            ),
    {
        let rows: usize = self.data.get_rows();
        let cols: usize = self.data.get_cols();
        let ghost n = self.data.cells().len();
        let ghost c = cols as int;
        proof {
            assert(0 * c == 0);
        }
        let mut y_in: usize = 0;
        while y_in < rows
            invariant
                y_in <= rows,
                rows == self.rows(),
                cols == self.cols(),
                self.wf(),
                self.background == old(self).background,
                self.foreground == old(self).foreground,
                self.data.cells().len() == n,
                n == c * rows,
                c == cols,
                y_in * c <= n,
                forall|k: int| 0 <= k < y_in * c ==> self.data.cells()[k] == self.background,
            decreases rows - y_in,
        {
            let mut x_in: usize = 0;
            while x_in < cols
                invariant
                    x_in <= cols,
                    y_in < rows,
                    rows == self.rows(),
                    cols == self.cols(),
                    self.wf(),
                    self.background == old(self).background,
                    self.foreground == old(self).foreground,
                    self.data.cells().len() == n,
                    n == c * rows,
                    c == cols,
                    y_in * c + x_in <= n,
                    forall|k: int| 0 <= k < y_in * c + x_in ==> self.data.cells()[k] == self.background,
                decreases cols - x_in,
            {
                let bg: u8 = self.background;
                proof {
                    lemma_offset(c, rows as int, x_in as int, y_in as int, 0, 0);
                }
                let _ = self.data.set(&Position { x: x_in, y: y_in }, bg);
                x_in += 1;
            }
            proof {
                assert((y_in + 1) * c == y_in * c + c) by (nonlinear_arith);
                assert((y_in + 1) * c <= n) by (nonlinear_arith)
                    requires
                        y_in + 1 <= rows,
                        n == c * rows,
                        0 <= c,
                ;
            }
            y_in += 1;
        }
        proof {
            assert(rows * c == n) by (nonlinear_arith)
                requires
                    n == c * rows,
            ;
            assert(self.data.cells() =~= Seq::new(n, |i: int| self.background));
        }
    }
}

} // verus!
