use vstd::prelude::*;
use crate::error::ConfigError;
use crate::grid::lemma_split_flat;
use crate::grid::shift_on_axis;
use crate::grid::wrap_spec;
use crate::grid::Grid;

verus! {

/// Entry `(r, c)` of a mask is there and is set.
pub open spec fn mask_entry(mask: Seq<Vec<u8>>, r: int, c: int) -> bool {
    &&& 0 <= r < mask.len()
    &&& 0 <= c < mask[r]@.len()
    &&& mask[r]@[c] != 0
}

/// A mask has a set entry.  A mask without one is empty: it has no rows,
/// or no columns, or nothing but zeros, and a window with such a mask
/// takes in no cell at all.
pub open spec fn mask_has_entry(mask: Seq<Vec<u8>>) -> bool {
    exists|r: int, c: int| mask_entry(mask, r, c)
}

/// Every row of a mask is as long as the first.
pub open spec fn mask_rectangular(mask: Seq<Vec<u8>>) -> bool {
    forall|r: int| 0 <= r < mask.len() ==> (#[trigger] mask[r])@.len() == mask[0]@.len()
}

/// Whether a mask has a set entry.
pub fn has_set_entry(mask: &Vec<Vec<u8>>) -> (found: bool)
    ensures
        found == mask_has_entry(mask@),
{
    let mut r: usize = 0;
    while r < mask.len()
        invariant
            r <= mask@.len(),
            forall|i: int, j: int| 0 <= i < r ==> !mask_entry(mask@, i, j),
        decreases mask@.len() - r,
    {
        let mut c: usize = 0;
        while c < mask[r].len()
            invariant
                r < mask@.len(),
                c <= mask@[r as int]@.len(),
                forall|i: int, j: int| 0 <= i < r ==> !mask_entry(mask@, i, j),
                forall|j: int| 0 <= j < c ==> !mask_entry(mask@, r as int, j),
            decreases mask@[r as int]@.len() - c,
        {
            if mask[r][c] != 0 {
                assert(mask_entry(mask@, r as int, c as int));
                return true;
            }
            c += 1;
        }
        r += 1;
    }
    false
}

/// Whether every row of a mask is as long as the first.
pub fn is_rectangular(mask: &Vec<Vec<u8>>) -> (ok: bool)
    ensures
        ok == mask_rectangular(mask@),
{
    let mut r: usize = 0;
    while r < mask.len()
        invariant
            r <= mask@.len(),
            forall|k: int| 0 <= k < r ==> (#[trigger] mask@[k])@.len() == mask@[0]@.len(),
        decreases mask@.len() - r,
    {
        if mask[r].len() != mask[0].len() {
            return false;
        }
        r += 1;
    }
    true
}

/// A window of relative positions around a centre: which of them count.
/// The same window serves every cell of a grid.
#[derive(Clone, Debug)]
pub struct Neighborhood {
    pub width: usize,
    pub height: usize,
    pub center_row: usize,
    pub center_col: usize,
    /// `mask[r][c]` is non-zero where the window position counts.
    pub mask: Vec<Vec<u8>>,
}

impl Neighborhood {
    /// The mask has the window's rows and columns, the window is not empty,
    /// and the centre lies in it.
    pub open spec fn wf(&self) -> bool {
        &&& 0 < self.width <= isize::MAX
        &&& 0 < self.height <= isize::MAX
        &&& self.center_row < self.height
        &&& self.center_col < self.width
        &&& self.mask@.len() == self.height
        &&& forall|r: int| 0 <= r < self.mask@.len() ==> (#[trigger] self.mask@[r])@.len() == self.width
    }

    /// The window has a position that counts.
    pub open spec fn offers_any(&self) -> bool {
        exists|mask_r: int, mask_c: int| self.includes(mask_r, mask_c)
    }

    /// What `new` answers for a set of parameters.
    pub open spec fn verdict(
        width: usize,
        height: usize,
        center_row: usize,
        center_col: usize,
        mask: Seq<Vec<u8>>,
    ) -> Option<ConfigError> {
        if width == 0 || height == 0 {
            Some(ConfigError::EmptyMask)
        } else if width > isize::MAX || height > isize::MAX {
            Some(ConfigError::WindowTooLarge)
        } else if !Self::mask_fits(width, height, mask) {
            Some(ConfigError::MaskShapeMismatch)
        } else if !mask_has_entry(mask) {
            Some(ConfigError::EmptyMask)
        } else if center_row >= height || center_col >= width {
            Some(ConfigError::CenterOutOfWindow)
        } else {
            None
        }
    }

    /// The window position `(mask_r, mask_c)` counts.
    pub open spec fn includes(&self, mask_r: int, mask_c: int) -> bool {
        &&& 0 <= mask_r < self.height
        &&& 0 <= mask_c < self.width
        &&& self.mask@[mask_r]@[mask_c] != 0
    }

    /// The offset `(dr, dc)` from the centre addresses a position that counts.
    pub open spec fn admits(&self, dr: int, dc: int) -> bool {
        self.includes(self.center_row + dr, self.center_col + dc)
    }

    /// Whether a mask has exactly `height` rows of `width` entries.
    pub open spec fn mask_fits(width: usize, height: usize, mask: Seq<Vec<u8>>) -> bool {
        &&& mask.len() == height
        &&& forall|r: int| 0 <= r < mask.len() ==> (#[trigger] mask[r])@.len() == width
    }

    /// Builds a window.  Turned down are, in this order: a window without
    /// rows or columns, one too large for signed offsets, a mask whose shape
    /// is not that of the window, a mask without a set entry, and a centre
    /// outside the window.
    pub fn new(
        width: usize,
        height: usize,
        center_row: usize,
        center_col: usize,
        mask: Vec<Vec<u8>>,
    ) -> (result: Result<Self, ConfigError>)
        ensures
            match Self::verdict(width, height, center_row, center_col, mask@) {
                Some(error) => result == Err::<Self, ConfigError>(error),
                None => result matches Ok(window) && {
                    &&& window.wf()
                    &&& window.width == width
                    &&& window.height == height
                    &&& window.center_row == center_row
                    &&& window.center_col == center_col
                    &&& window.mask == mask
                    &&& window.offers_any()
                },
            },
    {
        if width == 0 || height == 0 {
            return Err(ConfigError::EmptyMask);
        }
        if width > isize::MAX as usize || height > isize::MAX as usize {
            return Err(ConfigError::WindowTooLarge);
        }
        if mask.len() != height {
            return Err(ConfigError::MaskShapeMismatch);
        }
        let mut r: usize = 0;
        while r < mask.len()
            invariant
                0 < width <= isize::MAX,
                0 < height <= isize::MAX,
                mask@.len() == height,
                r <= mask@.len(),
                forall|k: int| 0 <= k < r ==> (#[trigger] mask@[k])@.len() == width,
            decreases mask@.len() - r,
        {
            if mask[r].len() != width {
                return Err(ConfigError::MaskShapeMismatch);
            }
            r += 1;
        }
        if !has_set_entry(&mask) {
            return Err(ConfigError::EmptyMask);
        }
        if center_row >= height || center_col >= width {
            return Err(ConfigError::CenterOutOfWindow);
        }
        let window = Self { width, height, center_row, center_col, mask };
        proof {
            let (r, c) = choose|r: int, c: int| mask_entry(window.mask@, r, c);
            assert(window.includes(r, c));
        }
        Ok(window)
    }

    /// Whether the mask has the window's rows and columns, the window is
    /// not empty, and the centre lies in it.
    pub fn is_well_formed(&self) -> (ok: bool)
        ensures
            ok == self.wf(),
    {
        if self.width == 0 || self.height == 0 || self.width > isize::MAX as usize || self.height
            > isize::MAX as usize {
            return false;
        }
        if self.center_row >= self.height || self.center_col >= self.width {
            return false;
        }
        if self.mask.len() != self.height {
            return false;
        }
        let mut r: usize = 0;
        while r < self.mask.len()
            invariant
                r <= self.mask@.len(),
                forall|k: int| 0 <= k < r ==> (#[trigger] self.mask@[k])@.len() == self.width,
            decreases self.mask@.len() - r,
        {
            if self.mask[r].len() != self.width {
                return false;
            }
            r += 1;
        }
        true
    }

    /// The grid cell under window position `(mask_r, mask_c)` when the
    /// window's centre lies on cell `(cell_r, cell_c)`.
    pub fn get_grid_coords<T: Copy>(
        &self,
        mask_r: usize,
        mask_c: usize,
        cell_r: usize,
        cell_c: usize,
        grid: &Grid<T>,
    ) -> (pos: (usize, usize))
        requires
            grid.wf(),
        ensures
            pos.0 == wrap_spec(cell_r + (mask_r - self.center_row), grid.height as int),
            pos.1 == wrap_spec(cell_c + (mask_c - self.center_col), grid.width as int),
            pos.0 < grid.height,
            pos.1 < grid.width,
    {
        (
            shift_on_axis(cell_r, mask_r, self.center_row, grid.height),
            shift_on_axis(cell_c, mask_c, self.center_col, grid.width),
        )
    }

    /// The mask entry at a window position: non-zero where it counts.
    pub fn is_valid(&self, mask_r: usize, mask_c: usize) -> (flag: u8)
        requires
            self.wf(),
            mask_r < self.height,
            mask_c < self.width,
        ensures
            flag == self.mask@[mask_r as int]@[mask_c as int],
            (flag != 0) == self.includes(mask_r as int, mask_c as int),
    {
        self.mask[mask_r][mask_c]
    }

    /// Whether an offset from the centre addresses a position that counts.
    /// An offset that leaves the window does not.
    pub fn admits_offset(&self, dr: isize, dc: isize) -> (ok: bool)
        requires
            self.wf(),
        ensures
            ok == self.admits(dr as int, dc as int),
    {
        let row = Self::offset_index(self.center_row, dr, self.height);
        let col = Self::offset_index(self.center_col, dc, self.width);
        match (row, col) {
            (Some(r), Some(c)) => self.mask[r][c] != 0,
            _ => false,
        }
    }

    /// `center + delta` where that lies in `0..len`.
    fn offset_index(center: usize, delta: isize, len: usize) -> (index: Option<usize>)
        ensures
            match index {
                Some(k) => k == center + delta && k < len,
                None => !(0 <= center + delta < len),
            },
    {
        if delta >= 0 {
            let step: usize = delta as usize;
            if center < len && step < len - center {
                Some(center + step)
            } else {
                None
            }
        } else {
            let back: usize = (-(delta + 1)) as usize;
            if back < center && center - back - 1 < len {
                Some(center - back - 1)
            } else {
                None
            }
        }
    }
}

/// A cell seen through a window: where it lies relative to the centre, and
/// where on the grid.
#[derive(Clone, Copy, Debug, PartialEq, Eq, Structural)]
pub struct Neighbor {
    /// Rows from the centre, negative upwards.
    pub dr: isize,
    /// Columns from the centre, negative to the left.
    pub dc: isize,
    /// The row of the cell on the grid.
    pub row: usize,
    /// The column of the cell on the grid.
    pub col: usize,
}

impl Neighborhood {
    /// The offset from the centre of the `k`-th window position, counted
    /// row by row.
    pub open spec fn offset_at(&self, k: int) -> (isize, isize) {
        ((k / (self.width as int) - self.center_row) as isize, (k % (self.width as int) - self.center_col) as isize)
    }

    /// The `k`-th window position, counted row by row, counts.
    pub open spec fn counts_at(&self, k: int) -> bool {
        self.includes(k / (self.width as int), k % (self.width as int))
    }

    /// The offsets of the positions that count among the first `upto`
    /// window positions, in the order of the positions.
    pub open spec fn offsets(&self, upto: int) -> Seq<(isize, isize)>
        decreases upto,
    {
        if upto <= 0 {
            Seq::empty()
        } else if self.counts_at(upto - 1) {
            self.offsets(upto - 1).push(self.offset_at(upto - 1))
        } else {
            self.offsets(upto - 1)
        }
    }

    /// All offsets that the window admits, row by row.
    pub open spec fn all_offsets(&self) -> Seq<(isize, isize)> {
        self.offsets(self.width * self.height)
    }

    /// Every listed offset is one that the window admits, and a window that
    /// has a position that counts lists an offset.
    pub proof fn lemma_offsets_admitted(&self, upto: int)
        requires
            self.wf(),
            0 <= upto <= self.width * self.height,
        ensures
            forall|k: int|
                0 <= k < self.offsets(upto).len() ==> self.admits(
                    (#[trigger] self.offsets(upto)[k]).0 as int,
                    self.offsets(upto)[k].1 as int,
                ),
            self.offsets(upto).len() == 0 <==> forall|j: int| 0 <= j < upto ==> !#[trigger] self.counts_at(j),
        decreases upto,
    {
        if upto > 0 {
            self.lemma_offsets_admitted(upto - 1);
            let j = upto - 1;
            lemma_split_flat(j, self.width as int, self.height as int);
            if self.counts_at(j) {
                let last = self.offset_at(j);
                assert(self.admits(last.0 as int, last.1 as int));
            }
        }
    }

    /// The window lists no offset exactly when no position counts.
    pub proof fn lemma_offsets_empty(&self)
        requires
            self.wf(),
        ensures
            self.all_offsets().len() == 0 <==> !self.offers_any(),
    {
        let n = self.width * self.height;
        assert(n >= 0) by (nonlinear_arith)
            requires
                n == self.width * self.height,
        ;
        self.lemma_offsets_admitted(n);
        if self.offers_any() {
            let (r, c) = choose|r: int, c: int| self.includes(r, c);
            let j = r * self.width + c;
            assert(0 <= r * self.width && (r + 1) * self.width <= self.width * self.height && (r + 1) * self.width == r
                * self.width + self.width && r * self.width == self.width * r) by (nonlinear_arith)
                requires
                    0 <= r < self.height,
                    0 < self.width,
            ;
            vstd::arithmetic::div_mod::lemma_fundamental_div_mod_converse(j, self.width as int, r, c);
            assert(self.counts_at(j));
        } else {
            assert forall|j: int| 0 <= j < n implies !#[trigger] self.counts_at(j) by {
                if self.counts_at(j) {
                    assert(self.includes(j / (self.width as int), j % (self.width as int)));
                }
            }
        }
    }

    /// The cell under the `k`-th window position, counted row by row, when
    /// the centre lies on `(row, col)`.
    pub open spec fn neighbor_at<T: Copy>(&self, grid: &Grid<T>, row: int, col: int, k: int) -> Neighbor {
        let mask_r = k / (self.width as int);
        let mask_c = k % (self.width as int);
        Neighbor {
            dr: (mask_r - self.center_row) as isize,
            dc: (mask_c - self.center_col) as isize,
            row: wrap_spec(row + (mask_r - self.center_row), grid.height as int) as usize,
            col: wrap_spec(col + (mask_c - self.center_col), grid.width as int) as usize,
        }
    }

    /// The `k`-th window position takes part: the mask has it, an agent
    /// sits on the cell under it, and it is not the centre unless the centre
    /// is asked for.
    pub open spec fn takes_part<T: Copy>(&self, grid: &Grid<T>, row: int, col: int, with_center: bool, k: int) -> bool {
        let mask_r = k / (self.width as int);
        let mask_c = k % (self.width as int);
        let seen = self.neighbor_at(grid, row, col, k);
        &&& self.includes(mask_r, mask_c)
        &&& with_center || !(mask_r == self.center_row && mask_c == self.center_col)
        &&& grid.occupied(grid.flat(seen.row as int, seen.col as int))
    }

    /// The cells that take part among the first `upto` window positions, in
    /// the order of the positions.
    pub open spec fn scan<T: Copy>(&self, grid: &Grid<T>, row: int, col: int, with_center: bool, upto: int) -> Seq<
        Neighbor,
    >
        decreases upto,
    {
        if upto <= 0 {
            Seq::empty()
        } else if self.takes_part(grid, row, col, with_center, upto - 1) {
            self.scan(grid, row, col, with_center, upto - 1).push(self.neighbor_at(grid, row, col, upto - 1))
        } else {
            self.scan(grid, row, col, with_center, upto - 1)
        }
    }

    /// The agents around cell `(row, col)`: for every window position that
    /// the mask has, row by row, the cell under it where an agent sits
    /// there.  The centre is left out unless `with_center` asks for it.
    pub fn occupied_neighbors<T: Copy>(&self, row: usize, col: usize, grid: &Grid<T>, with_center: bool) -> (found: Vec<
        Neighbor,
    >)
        requires
            self.wf(),
            grid.wf(),
        ensures
            found@ == self.scan(grid, row as int, col as int, with_center, self.width * self.height),
            forall|k: int| 0 <= k < found@.len() ==> (#[trigger] found@[k]).row < grid.height && found@[k].col < grid.width,
    {
        let mut found: Vec<Neighbor> = Vec::new();
        let mut mask_r: usize = 0;
        assert(0 * self.width == 0) by (nonlinear_arith);
        while mask_r < self.height
            invariant
                self.wf(),
                grid.wf(),
                mask_r <= self.height,
                found@ == self.scan(grid, row as int, col as int, with_center, mask_r * self.width),
                forall|k: int| 0 <= k < found@.len() ==> (#[trigger] found@[k]).row < grid.height && found@[k].col < grid.width,
            decreases self.height - mask_r,
        {
            let mut mask_c: usize = 0;
            while mask_c < self.width
                invariant
                    self.wf(),
                    grid.wf(),
                    mask_r < self.height,
                    mask_c <= self.width,
                    found@ == self.scan(grid, row as int, col as int, with_center, mask_r * self.width + mask_c),
                    forall|k: int|
                        0 <= k < found@.len() ==> (#[trigger] found@[k]).row < grid.height && found@[k].col < grid.width,
                decreases self.width - mask_c,
            {
                let ghost k = mask_r * self.width + mask_c;
                proof {
                    assert(0 <= mask_r * self.width) by (nonlinear_arith)
                        requires
                            mask_r >= 0,
                            self.width >= 0,
                    ;
                    assert(mask_r * self.width == self.width * mask_r) by (nonlinear_arith);
                    vstd::arithmetic::div_mod::lemma_fundamental_div_mod_converse(
                        k,
                        self.width as int,
                        mask_r as int,
                        mask_c as int,
                    );
                }
                let (grid_r, grid_c) = self.get_grid_coords(mask_r, mask_c, row, col, grid);
                let counts: bool = self.is_valid(mask_r, mask_c) != 0 && (with_center || !(mask_r == self.center_row
                    && mask_c == self.center_col)) && grid.is_cell_empty(grid_r, grid_c) == 0;
                let seen = Neighbor {
                    dr: mask_r as isize - self.center_row as isize,
                    dc: mask_c as isize - self.center_col as isize,
                    row: grid_r,
                    col: grid_c,
                };
                assert(seen == self.neighbor_at(grid, row as int, col as int, k));
                assert(counts == self.takes_part(grid, row as int, col as int, with_center, k));
                if counts {
                    found.push(seen);
                }
                assert(found@ == self.scan(grid, row as int, col as int, with_center, k + 1));
                mask_c += 1;
            }
            assert((mask_r + 1) * self.width == mask_r * self.width + self.width) by (nonlinear_arith);
            mask_r += 1;
        }
        assert(self.height * self.width == self.width * self.height) by (nonlinear_arith);
        found
    }
}

} // verus!
