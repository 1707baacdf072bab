use vstd::prelude::*;
use crate::grid::{cell_index, lemma_cell_index};
use crate::palette::Rgb;

verus! {

/// One character cell: a glyph, the display colour pair it is drawn in on a
/// palette display (0 for the default colours), and the colour it resolves
/// to, which a true-colour display draws directly.
#[derive(Clone, Copy, Debug, PartialEq, Eq)]
pub struct Cell {
    pub glyph: char,
    pub color_pair: i16,
    pub color: Rgb,
}

/// The empty cell: a black space in the default colours.
pub open spec fn blank_cell() -> Cell {
    Cell { glyph: ' ', color_pair: 0, color: (0, 0, 0) }
}

/// `n` empty cells.
pub open spec fn blank_cells(n: int) -> Seq<Cell> {
    Seq::new(n as nat, |i: int| blank_cell())
}

/// A double-buffered grid of cells. Writers fill the back buffer; the front
/// buffer is the last complete frame, and the two change roles at once.
pub struct TerminalBuffer {
    width: usize,
    height: usize,
    front_buffer: Vec<Cell>,
    back_buffer: Vec<Cell>,
}

impl TerminalBuffer {
    /// Width of the grid, in cells.
    pub closed spec fn cols(&self) -> int {
        self.width as int
    }

    /// Height of the grid, in cells.
    pub closed spec fn rows(&self) -> int {
        self.height as int
    }

    /// The last complete frame, row by row.
    pub closed spec fn front(&self) -> Seq<Cell> {
        self.front_buffer@
    }

    /// The frame being written, row by row.
    pub closed spec fn back(&self) -> Seq<Cell> {
        self.back_buffer@
    }

    /// Both buffers hold one cell per grid position.
    pub open spec fn wf(&self) -> bool {
        &&& 0 <= self.cols()
        &&& 0 <= self.rows()
        &&& self.cols() * self.rows() <= usize::MAX
        &&& self.front().len() == self.cols() * self.rows()
        &&& self.back().len() == self.cols() * self.rows()
    }

    /// `n` blank cells.
    fn blank_vec(n: usize) -> (v: Vec<Cell>)
        ensures
            v@ == blank_cells(n as int),
    {
        let v = vec![Cell { glyph: ' ', color_pair: 0, color: (0, 0, 0) }; n];
        assert(v@ =~= blank_cells(n as int));
        v
    }

    /// A `width`×`height` grid with both buffers blank.
    pub fn new(width: usize, height: usize) -> (b: Self)
        requires
            width * height <= usize::MAX,
        ensures
            b.wf(),
            b.cols() == width,
            b.rows() == height,
            b.front() == blank_cells(width * height),
            b.back() == blank_cells(width * height),
    {
        let n = width * height;
        TerminalBuffer {
            width,
            height,
            front_buffer: Self::blank_vec(n),
            back_buffer: Self::blank_vec(n),
        }
    }

    /// Blanks the back buffer.
    pub fn clear(&mut self)
        requires
            old(self).wf(),
        ensures
            final(self).wf(),
            final(self).cols() == old(self).cols(),
            final(self).rows() == old(self).rows(),
            final(self).front() == old(self).front(),
            final(self).back() == blank_cells(old(self).back().len() as int),
    {
        let n = self.back_buffer.len();
        self.back_buffer = Self::blank_vec(n);
    }

    /// Writes a cell of the back buffer; a position outside the grid is
    /// ignored.
    pub fn set_char(&mut self, x: usize, y: usize, ch: char, color_pair: i16, color: Rgb)
        requires
            old(self).wf(),
        ensures
            final(self).wf(),
            final(self).cols() == old(self).cols(),
            final(self).rows() == old(self).rows(),
            final(self).front() == old(self).front(),
            final(self).back() == if x < old(self).cols() && y < old(self).rows() {
                old(self).back().update(
                    cell_index(old(self).cols(), x as int, y as int),
                    Cell { glyph: ch, color_pair, color },
                )
            } else {
                old(self).back()
            },
    {
        if x < self.width && y < self.height {
            proof {
                lemma_cell_index(self.width as int, self.height as int, x as int, y as int);
            }
            let index = y * self.width + x;
            self.back_buffer.set(index, Cell { glyph: ch, color_pair, color });
        }
    }

    /// Exchanges the roles of the two buffers: the frame just written
    /// becomes the one shown.
    pub fn swap_buffers(&mut self)
        requires
            old(self).wf(),
        ensures
            final(self).wf(),
            final(self).cols() == old(self).cols(),
            final(self).rows() == old(self).rows(),
            final(self).front() == old(self).back(),
            final(self).back() == old(self).front(),
    {
        std::mem::swap(&mut self.front_buffer, &mut self.back_buffer);
    }

    /// Gives the grid new dimensions. Both buffers are reallocated to
    /// exactly `new_width × new_height` blank cells: nothing of the former
    /// frames remains.
    pub fn resize(&mut self, new_width: usize, new_height: usize)
        requires
            new_width * new_height <= usize::MAX,
        ensures
            final(self).wf(),
            final(self).cols() == new_width,
            final(self).rows() == new_height,
            final(self).front() == blank_cells(new_width * new_height),
            final(self).back() == blank_cells(new_width * new_height),
    {
        *self = Self::new(new_width, new_height);
    }

    /// The dimensions of the grid, `(width, height)`.
    pub fn get_size(&self) -> (r: (usize, usize))
        ensures
            r.0 == self.cols(),
            r.1 == self.rows(),
    {
        (self.width, self.height)
    }

    /// The cells of the last complete frame, row by row, for the display.
    pub fn front_cells(&self) -> (r: &Vec<Cell>)
        ensures
            r@ == self.front(),
    {
        &self.front_buffer
    }
}

} // verus!
