//! The cell buffer: a grid of styled character cells that a terminal UI draws
//! into and the rasterizer reads from.
use vstd::prelude::*;

use crate::color::Color;

verus! {

/// One terminal grid position.
pub struct Cell {
    /// The character and any combining marks that follow it.
    pub symbol: Vec<char>,
    pub fg: Color,
    pub bg: Color,
    /// Bold, italic, reversed, crossed-out and the like, as a bit set.
    pub modifiers: u16,
}

/// What a cell holds, as plain values.
pub struct CellView {
    pub symbol: Seq<char>,
    pub fg: Color,
    pub bg: Color,
    pub modifiers: u16,
}

impl View for Cell {
    type V = CellView;

    open spec fn view(&self) -> CellView {
        CellView { symbol: self.symbol@, fg: self.fg, bg: self.bg, modifiers: self.modifiers }
    }
}

/// The cell that a fresh or cleared buffer holds: a space in default colors.
pub open spec fn blank_cell() -> CellView {
    CellView { symbol: seq![' '], fg: Color::Reset, bg: Color::Reset, modifiers: 0 }
}

impl Cell {
    /// A blank cell.
    pub fn blank() -> (r: Cell)
        ensures
            r@ == blank_cell(),
    {
        let mut symbol: Vec<char> = Vec::new();
        symbol.push(' ');
        Cell { symbol, fg: Color::Reset, bg: Color::Reset, modifiers: 0 }
    }

    /// A cell showing one character in the given colors.
    pub fn from_char(c: char, fg: Color, bg: Color) -> (r: Cell)
        ensures
            r@ == (CellView { symbol: seq![c], fg, bg, modifiers: 0 }),
    {
        let mut symbol: Vec<char> = Vec::new();
        symbol.push(c);
        Cell { symbol, fg, bg, modifiers: 0 }
    }

    /// A copy of this cell.
    pub fn duplicate(&self) -> (r: Cell)
        ensures
            r@ == self@,
    {
        Cell { symbol: self.symbol.clone(), fg: self.fg, bg: self.bg, modifiers: self.modifiers }
    }

    /// Replaces the symbol by one character.
    pub fn set_char(&mut self, c: char)
        ensures
            final(self)@ == (CellView { symbol: seq![c], ..old(self)@ }),
    {
        let mut symbol: Vec<char> = Vec::new();
        symbol.push(c);
        self.symbol = symbol;
    }

    /// The first character of the symbol, or a space if the symbol is empty.
    pub fn first_char(&self) -> (r: char)
        ensures
            r == lead_char(self@.symbol),
    {
        if self.symbol.len() == 0 {
            ' '
        } else {
            self.symbol[0]
        }
    }
}

/// The character that decides how a symbol is laid out.
pub open spec fn lead_char(s: Seq<char>) -> char {
    if s.len() == 0 {
        ' '
    } else {
        s[0]
    }
}

/// A rectangle of cells.
#[derive(Clone, Copy, Debug, PartialEq, Eq, Structural)]
pub struct Rect {
    pub x: u16,
    pub y: u16,
    pub width: u16,
    pub height: u16,
}

/// Terminal size in columns and rows, and an approximate size in pixels.
#[derive(Clone, Copy, Debug, PartialEq, Eq, Structural)]
pub struct WindowSize {
    pub columns: u16,
    pub rows: u16,
    pub pixel_width: u16,
    pub pixel_height: u16,
}

/// A terminal emulator's screen state, kept in memory.
pub struct AndroidBackend {
    /// Terminal width in columns.
    pub width: u16,
    /// Terminal height in rows.
    pub height: u16,
    /// Cursor column; tracked, never painted.
    pub cursor_x: u16,
    /// Cursor row; tracked, never painted.
    pub cursor_y: u16,
    /// Row-major cells, `width * height` of them.
    pub cells: Vec<Cell>,
}

/// Whether `(x, y)` lies on a `w` by `h` grid.
pub open spec fn in_grid(w: int, h: int, x: int, y: int) -> bool {
    0 <= x < w && 0 <= y < h
}

/// The result of drawing `content` in order onto `cells`, a `w` by `h` grid:
/// each in-bounds entry overwrites its cell, the others are ignored.
pub open spec fn drawn(cells: Seq<CellView>, w: int, h: int, content: Seq<(u16, u16, Cell)>) -> Seq<
    CellView,
>
    decreases content.len(),
{
    if content.len() == 0 {
        cells
    } else {
        let before = drawn(cells, w, h, content.drop_last());
        let e = content.last();
        if in_grid(w, h, e.0 as int, e.1 as int) {
            before.update(e.1 * w + e.0, e.2@)
        } else {
            before
        }
    }
}

proof fn lemma_grid_index(w: int, h: int, x: int, y: int)
    requires
        in_grid(w, h, x, y),
    ensures
        0 <= y * w + x < w * h,
{
    assert(y * w <= (h - 1) * w) by (nonlinear_arith)
        requires
            0 <= y <= h - 1,
            0 <= w,
    ;
    assert((h - 1) * w + w == h * w) by (nonlinear_arith);
    assert(0 <= y * w) by (nonlinear_arith)
        requires
            0 <= y,
            0 <= w,
    ;
}

impl AndroidBackend {
    /// The cells as plain values, row by row.
    pub open spec fn grid(&self) -> Seq<CellView> {
        self.cells@.map_values(|c: Cell| c@)
    }

    /// The grid holds one cell per column and row.
    pub open spec fn wf(&self) -> bool {
        self.cells@.len() == self.width * self.height
    }

    /// The cell at column `x`, row `y`.
    pub open spec fn cell_at(&self, x: int, y: int) -> CellView {
        self.grid()[y * self.width + x]
    }

    pub open spec fn cursor(&self) -> (u16, u16) {
        (self.cursor_x, self.cursor_y)
    }

    /// Every cell is blank.
    pub open spec fn all_blank(&self) -> bool {
        forall|i: int| 0 <= i < self.grid().len() ==> #[trigger] self.grid()[i] == blank_cell()
    }

    fn blank_cells(width: u16, height: u16) -> (r: Vec<Cell>)
        ensures
            r@.len() == width * height,
            forall|i: int| 0 <= i < r@.len() ==> (#[trigger] r@[i])@ == blank_cell(),
    {
        assert((width as int) * (height as int) <= 65535 * 65535) by (nonlinear_arith)
            requires
                width <= 65535,
                height <= 65535,
        ;
        let n: usize = (width as usize) * (height as usize);
        let mut cells: Vec<Cell> = Vec::new();
        let mut i: usize = 0;
        while i < n
            invariant
                i <= n,
                n == width * height,
                cells@.len() == i,
                forall|j: int| 0 <= j < cells@.len() ==> (#[trigger] cells@[j])@ == blank_cell(),
            decreases n - i,
        {
            cells.push(Cell::blank());
            i = i + 1;
        }
        cells
    }

    /// A `width` by `height` buffer of blank cells; either may be zero.
    pub fn new(width: u16, height: u16) -> (r: AndroidBackend)
        ensures
            r.wf(),
            r.width == width,
            r.height == height,
            r.all_blank(),
            r.cursor() == (0u16, 0u16),
            r.grid().len() == width * height,
    {
        let cells = Self::blank_cells(width, height);
        let r = AndroidBackend { width, height, cursor_x: 0, cursor_y: 0, cells };
        assert forall|i: int| 0 <= i < r.grid().len() implies #[trigger] r.grid()[i]
            == blank_cell() by {
            assert(r.cells@[i]@ == blank_cell());
        }
        r
    }

    /// Reallocates the grid at the new size; every cell becomes blank.
    pub fn resize(&mut self, width: u16, height: u16)
        ensures
            resized(*old(self), *final(self), width, height),
    {
        let cells = Self::blank_cells(width, height);
        self.width = width;
        self.height = height;
        self.cells = cells;
        assert forall|i: int| 0 <= i < self.grid().len() implies #[trigger] self.grid()[i]
            == blank_cell() by {
            assert(self.cells@[i]@ == blank_cell());
        }
    }

    /// The cell at column `x`, row `y`, or `None` off the grid.
    pub fn get_cell(&self, x: u16, y: u16) -> (r: Option<&Cell>)
        requires
            self.wf(),
        ensures
            r.is_some() <==> in_grid(self.width as int, self.height as int, x as int, y as int),
            r.is_some() ==> r.unwrap()@ == self.cell_at(x as int, y as int),
    {
        if x < self.width && y < self.height {
            let n = self.cells.len();
            proof {
                lemma_grid_index(self.width as int, self.height as int, x as int, y as int);
            }
            let idx: usize = (y as usize) * (self.width as usize) + (x as usize);
            Some(&self.cells[idx])
        } else {
            None
        }
    }

    /// The cell at column `x`, row `y` for changing in place, or `None` off
    /// the grid; the grid's size never changes through it.
    pub fn get_cell_mut(&mut self, x: u16, y: u16) -> (r: Option<&mut Cell>)
        requires
            old(self).wf(),
        ensures
            r.is_some() <==> in_grid(old(self).width as int, old(self).height as int, x as int, y as int),
            r.is_none() ==> *final(self) == *old(self),
            r.is_some() ==> (*r.unwrap())@ == old(self).cell_at(x as int, y as int),
            r.is_some() ==> final(self).width == old(self).width && final(self).height == old(self).height
                && final(self).cursor() == old(self).cursor() && final(self).cells@ == old(self).cells@.update(
                y * old(self).width + x,
                *final(r.unwrap()),
            ),
    {
        if x < self.width && y < self.height {
            let n = self.cells.len();
            proof {
                lemma_grid_index(self.width as int, self.height as int, x as int, y as int);
            }
            let idx: usize = (y as usize) * (self.width as usize) + (x as usize);
            Some(&mut self.cells[idx])
        } else {
            None
        }
    }

    /// Overwrites the cell at `(x, y)` and returns true, or returns false and
    /// changes nothing when `(x, y)` is off the grid.
    pub fn set_cell(&mut self, x: u16, y: u16, cell: Cell) -> (r: bool)
        requires
            old(self).wf(),
        ensures
            final(self).wf(),
            final(self).width == old(self).width,
            final(self).height == old(self).height,
            final(self).cursor() == old(self).cursor(),
            r == in_grid(old(self).width as int, old(self).height as int, x as int, y as int),
            r ==> final(self).grid() == old(self).grid().update(
                y * old(self).width + x,
                cell@,
            ),
            !r ==> final(self).grid() == old(self).grid(),
    {
        if x < self.width && y < self.height {
            let n = self.cells.len();
            proof {
                lemma_grid_index(self.width as int, self.height as int, x as int, y as int);
            }
            let idx: usize = (y as usize) * (self.width as usize) + (x as usize);
            self.cells.set(idx, cell);
            assert(self.grid() =~= old(self).grid().update(idx as int, cell@));
            true
        } else {
            false
        }
    }

    /// Writes each in-bounds entry of `content` in order; the others are
    /// ignored.
    pub fn draw(&mut self, content: Vec<(u16, u16, Cell)>)
        requires
            old(self).wf(),
        ensures
            final(self).wf(),
            final(self).width == old(self).width,
            final(self).height == old(self).height,
            final(self).cursor() == old(self).cursor(),
            final(self).grid() == drawn(
                old(self).grid(),
                old(self).width as int,
                old(self).height as int,
                content@,
            ),
    {
        let ghost g0 = self.grid();
        let ghost w = self.width as int;
        let ghost h = self.height as int;
        let mut content = content;
        let n = content.len();
        let mut rest: Vec<(u16, u16, Cell)> = Vec::new();
        // Entries are taken from the back, so reverse first to keep their order.
        let ghost all = content@;
        while content.len() > 0
            invariant
                content@.len() + rest@.len() == n,
                n == all.len(),
                forall|j: int|
                    0 <= j < rest@.len() ==> #[trigger] rest@[j] == all[n - 1 - j],
                content@ == all.take(content@.len() as int),
            decreases content@.len(),
        {
            let e = content.pop().unwrap();
            rest.push(e);
        }
        let mut i: usize = 0;
        while rest.len() > 0
            invariant
                self.wf(),
                self.width == w,
                self.height == h,
                self.cursor() == old(self).cursor(),
                rest@.len() + i == n,
                n == all.len(),
                forall|j: int|
                    0 <= j < rest@.len() ==> #[trigger] rest@[j] == all[n - 1 - j],
                self.grid() == drawn(g0, w, h, all.take(i as int)),
            decreases rest@.len(),
        {
            let e = rest.pop().unwrap();
            assert(e == all[i as int]);
            let (x, y, c) = e;
            self.set_cell(x, y, c);
            assert(all.take(i as int + 1).drop_last() =~= all.take(i as int));
            i = i + 1;
        }
        assert(all.take(n as int) =~= all);
    }

    /// Resets every cell to blank, keeping the size.
    pub fn clear(&mut self)
        requires
            old(self).wf(),
        ensures
            final(self).wf(),
            final(self).width == old(self).width,
            final(self).height == old(self).height,
            final(self).cursor() == old(self).cursor(),
            final(self).all_blank(),
    {
        let w = self.width;
        let h = self.height;
        self.cells = Self::blank_cells(w, h);
        assert forall|i: int| 0 <= i < self.grid().len() implies #[trigger] self.grid()[i]
            == blank_cell() by {
            assert(self.cells@[i]@ == blank_cell());
        }
    }

    /// The cursor position; it is tracked but never painted.
    pub fn get_cursor_position(&self) -> (r: (u16, u16))
        ensures
            r == self.cursor(),
    {
        (self.cursor_x, self.cursor_y)
    }

    /// Moves the cursor.
    pub fn set_cursor_position(&mut self, x: u16, y: u16)
        ensures
            final(self).cursor() == (x, y),
            final(self).width == old(self).width,
            final(self).height == old(self).height,
            final(self).grid() == old(self).grid(),
            final(self).wf() == old(self).wf(),
    {
        self.cursor_x = x;
        self.cursor_y = y;
    }

    /// The size in columns and rows.
    pub fn size(&self) -> (r: (u16, u16))
        ensures
            r == (self.width, self.height),
    {
        (self.width, self.height)
    }

    /// The whole grid as a rectangle at the origin.
    pub fn buffer_area(&self) -> (r: Rect)
        ensures
            r == (Rect { x: 0, y: 0, width: self.width, height: self.height }),
    {
        Rect { x: 0, y: 0, width: self.width, height: self.height }
    }

    /// The size in cells, and in pixels at 8 by 16 pixels a cell (truncated
    /// to 16 bits).
    pub fn window_size(&self) -> (r: WindowSize)
        ensures
            r.columns == self.width,
            r.rows == self.height,
            r.pixel_width == (self.width * 8) % 0x10000,
            r.pixel_height == (self.height * 16) % 0x10000,
    {
        let pw: u32 = (self.width as u32) * 8;
        let ph: u32 = (self.height as u32) * 16;
        WindowSize {
            columns: self.width,
            rows: self.height,
            pixel_width: (pw % 0x10000) as u16,
            pixel_height: (ph % 0x10000) as u16,
        }
    }

    /// Every cell with its column and row, row by row.
    pub fn cells(&self) -> (r: Vec<(u16, u16, Cell)>)
        requires
            self.wf(),
        ensures
            r@.len() == self.width * self.height,
            forall|i: int|
                0 <= i < r@.len() ==> {
                    let (x, y, c) = #[trigger] r@[i];
                    &&& y * self.width + x == i
                    &&& in_grid(self.width as int, self.height as int, x as int, y as int)
                    &&& c@ == self.cell_at(x as int, y as int)
                },
    {
        let mut out: Vec<(u16, u16, Cell)> = Vec::new();
        let mut y: u16 = 0;
        while y < self.height
            invariant
                self.wf(),
                y <= self.height,
                out@.len() == y * self.width,
                forall|i: int|
                    0 <= i < out@.len() ==> {
                        let (x, yy, c) = #[trigger] out@[i];
                        &&& yy * self.width + x == i
                        &&& in_grid(self.width as int, self.height as int, x as int, yy as int)
                        &&& c@ == self.cell_at(x as int, yy as int)
                    },
            decreases self.height - y,
        {
            let mut x: u16 = 0;
            while x < self.width
                invariant
                    self.wf(),
                    y < self.height,
                    x <= self.width,
                    out@.len() == y * self.width + x,
                    forall|i: int|
                        0 <= i < out@.len() ==> {
                            let (xx, yy, c) = #[trigger] out@[i];
                            &&& yy * self.width + xx == i
                            &&& in_grid(self.width as int, self.height as int, xx as int, yy as int)
                            &&& c@ == self.cell_at(xx as int, yy as int)
                        },
                decreases self.width - x,
            {
                let n = self.cells.len();
                proof {
                    lemma_grid_index(self.width as int, self.height as int, x as int, y as int);
                }
                let idx: usize = (y as usize) * (self.width as usize) + (x as usize);
                let c = self.cells[idx].duplicate();
                out.push((x, y, c));
                x = x + 1;
            }
            assert((y + 1) * self.width == y * self.width + self.width) by (nonlinear_arith);
            y = y + 1;
        }
        assert(self.height * self.width == self.width * self.height) by (nonlinear_arith);
        out
    }
}

/// `after` is what resizing `before` to `w` by `h` leaves: a well-formed
/// all-blank grid of that size, the cursor kept.
pub open spec fn resized(before: AndroidBackend, after: AndroidBackend, w: u16, h: u16) -> bool {
    &&& after.wf()
    &&& after.width == w
    &&& after.height == h
    &&& after.all_blank()
    &&& after.grid().len() == w * h
    &&& after.cursor() == before.cursor()
}

/// Resizing always clears: resizing twice in a row to the same size leaves
/// the same all-blank grid of that size as resizing once.
pub proof fn lemma_resize_idempotent(
    b0: AndroidBackend,
    b1: AndroidBackend,
    b2: AndroidBackend,
    w: u16,
    h: u16,
)
    requires
        resized(b0, b1, w, h),
        resized(b1, b2, w, h),
    ensures
        b1.all_blank(),
        b2.all_blank(),
        b2.width == b1.width && b1.width == w,
        b2.height == b1.height && b1.height == h,
        b2.grid() == b1.grid(),
{
    assert(b2.grid() =~= b1.grid());
}

/// Drawing an entry whose coordinates are off the grid changes no cell, for
/// any size including zero.
pub proof fn lemma_draw_ignores_off_grid(
    cells: Seq<CellView>,
    w: int,
    h: int,
    content: Seq<(u16, u16, Cell)>,
    entry: (u16, u16, Cell),
)
    requires
        !in_grid(w, h, entry.0 as int, entry.1 as int),
    ensures
        drawn(cells, w, h, content.push(entry)) == drawn(cells, w, h, content),
{
    assert(content.push(entry).drop_last() =~= content);
}

impl Default for AndroidBackend {
    /// An 80 by 24 blank buffer.
    fn default() -> (r: AndroidBackend)
        ensures
            r.wf(),
            r.width == 80,
            r.height == 24,
            r.all_blank(),
    {
        AndroidBackend::new(80, 24)
    }
}

} // verus!
