use vstd::prelude::*;
use vstd::arithmetic::div_mod::lemma_add_mod_noop;
use vstd::arithmetic::div_mod::lemma_add_mod_noop_right;
use vstd::arithmetic::div_mod::lemma_sub_mod_noop;
use vstd::arithmetic::div_mod::lemma_fundamental_div_mod;
use vstd::arithmetic::div_mod::lemma_fundamental_div_mod_converse;
use vstd::set_lib::lemma_int_range;
use vstd::set_lib::lemma_len_subset;
use vstd::set_lib::set_int_range;
use crate::error::ConfigError;

verus! {

/// The residue of `v` modulo `n`: where a coordinate lands on an axis of
/// length `n` whose two ends are glued together.
pub open spec fn wrap_spec(v: int, n: int) -> int {
    v % n
}

/// Which cells hold an agent, given the flags that say which are vacant.
pub open spec fn occupancy_of(flags: Seq<u8>) -> Seq<bool> {
    Seq::new(flags.len(), |i: int| flags[i] == 0)
}

/// The occupied cells among the first `upto`.
pub open spec fn occupied_upto(occ: Seq<bool>, upto: int) -> Set<int> {
    Set::new(|i: int| 0 <= i < upto && i < occ.len() && occ[i])
}

/// The occupied cells.
pub open spec fn occupied_set(occ: Seq<bool>) -> Set<int> {
    occupied_upto(occ, occ.len() as int)
}

/// One step to the left of the origin is the far end of the axis, and one
/// step past the far end is the origin, whatever the length of the axis.
pub proof fn lemma_wrap_edges(n: int)
    requires
        n > 0,
    ensures
        wrap_spec(-1, n) == n - 1,
        wrap_spec(n, n) == 0,
{
    lemma_fundamental_div_mod_converse(-1, n, -1, n - 1);
    lemma_fundamental_div_mod_converse(n, n, 1, 0);
}

/// Wrapping is the identity on coordinates that already lie on the axis and
/// does not change when a whole turn is added.
pub proof fn lemma_wrap_periodic(v: int, n: int)
    requires
        n > 0,
    ensures
        0 <= wrap_spec(v, n) < n,
        0 <= v < n ==> wrap_spec(v, n) == v,
        wrap_spec(v + n, n) == wrap_spec(v, n),
        wrap_spec(v - n, n) == wrap_spec(v, n),
{
    lemma_fundamental_div_mod(v, n);
    let q = v / n;
    let r = v % n;
    assert(v + n == (q + 1) * n + r) by (nonlinear_arith)
        requires v == n * q + r;
    assert(v - n == (q - 1) * n + r) by (nonlinear_arith)
        requires v == n * q + r;
    lemma_fundamental_div_mod_converse(v + n, n, q + 1, r);
    lemma_fundamental_div_mod_converse(v - n, n, q - 1, r);
    if 0 <= v < n {
        lemma_fundamental_div_mod_converse(v, n, 0, v);
    }
}

/// The residue of a negative coordinate, counted back from the far end.
proof fn lemma_wrap_negative(v: int, n: int)
    requires
        v < 0,
        n > 0,
    ensures
        wrap_spec(v, n) == n - 1 - ((-(v + 1)) % n),
{
    let k = -(v + 1);
    lemma_fundamental_div_mod(k, n);
    let q = k / n;
    let m = k % n;
    assert(v == (-q - 1) * n + (n - 1 - m)) by (nonlinear_arith)
        requires k == n * q + m, k == -(v + 1);
    lemma_fundamental_div_mod_converse(v, n, -q - 1, n - 1 - m);
}

/// Looking at one more cell adds it to the occupied cells exactly when an
/// agent sits on it.
proof fn lemma_occupied_step(occ: Seq<bool>, k: int)
    requires
        0 <= k < occ.len(),
    ensures
        occupied_upto(occ, k).finite(),
        occupied_upto(occ, k).len() <= k,
        occ[k] ==> occupied_upto(occ, k + 1) == occupied_upto(occ, k).insert(k),
        !occ[k] ==> occupied_upto(occ, k + 1) == occupied_upto(occ, k),
        !occupied_upto(occ, k).contains(k),
{
    lemma_occupied_finite(occ, k);
    if occ[k] {
        assert(occupied_upto(occ, k + 1) =~= occupied_upto(occ, k).insert(k));
    } else {
        assert(occupied_upto(occ, k + 1) =~= occupied_upto(occ, k));
    }
}

/// The occupied cells are finitely many, and no more than the cells looked at.
pub proof fn lemma_occupied_finite(occ: Seq<bool>, k: int)
    requires
        0 <= k,
    ensures
        occupied_upto(occ, k).finite(),
        occupied_upto(occ, k).len() <= k,
{
    lemma_int_range(0, k);
    assert(occupied_upto(occ, k).subset_of(set_int_range(0, k)));
    lemma_len_subset(occupied_upto(occ, k), set_int_range(0, k));
}

/// `(base + plus - minus) mod n`, computed without leaving `usize`.
pub fn shift_on_axis(base: usize, plus: usize, minus: usize, n: usize) -> (r: usize)
    requires
        n > 0,
    ensures
        r == wrap_spec(base + plus - minus, n as int),
        r < n,
{
    let a: usize = base % n;
    let b: usize = plus % n;
    let c: usize = minus % n;
    let sum: usize = if a >= n - b {
        a - (n - b)
    } else {
        a + b
    };
    proof {
        let m = n as int;
        lemma_add_mod_noop(base as int, plus as int, m);
        if a + b >= m {
            lemma_wrap_periodic(a + b - m, m);
        } else {
            lemma_wrap_periodic(a + b, m);
        }
        assert(sum as int == (base + plus) % m);
        lemma_sub_mod_noop(base + plus, minus as int, m);
        if sum >= c {
            lemma_wrap_periodic(sum - c, m);
        } else {
            lemma_wrap_periodic(sum - c + m, m);
        }
    }
    if sum >= c {
        sum - c
    } else {
        n - (c - sum)
    }
}

/// A vector of `len` copies of `value`.
pub fn filled_with<V: Copy>(value: V, len: usize) -> (v: Vec<V>)
    ensures
        v@.len() == len,
        forall|i: int| 0 <= i < len ==> v@[i] == value,
{
    let mut v: Vec<V> = Vec::with_capacity(len);
    let mut i: usize = 0;
    while i < len
        invariant
            i <= len,
            v@.len() == i,
            forall|k: int| 0 <= k < i ==> v@[k] == value,
        decreases len - i,
    {
        v.push(value);
        i += 1;
    }
    v
}

/// The number of `true` entries.
pub fn count_marked(marks: &Vec<bool>) -> (count: usize)
    ensures
        count == occupied_set(marks@).len(),
{
    let mut count: usize = 0;
    let mut i: usize = 0;
    proof {
        lemma_occupied_finite(marks@, 0);
        assert(occupied_upto(marks@, 0) =~= Set::<int>::empty());
    }
    while i < marks.len()
        invariant
            i <= marks@.len(),
            count == occupied_upto(marks@, i as int).len(),
            count <= i,
        decreases marks@.len() - i,
    {
        proof {
            lemma_occupied_step(marks@, i as int);
        }
        if marks[i] {
            count += 1;
        }
        i += 1;
    }
    count
}

/// A flat index below `w * h` splits into a row below `h` and a column
/// below `w`.
pub proof fn lemma_split_flat(i: int, w: int, h: int)
    requires
        w > 0,
        0 <= i < w * h,
    ensures
        0 <= i / w < h,
        0 <= i % w < w,
        (i / w) * w + i % w == i,
{
    lemma_fundamental_div_mod(i, w);
    let q = i / w;
    assert(0 <= q < h) by (nonlinear_arith)
        requires
            i == w * q + i % w,
            0 <= i % w < w,
            0 <= i < w * h,
            w > 0,
    ;
    assert(q * w == w * q) by (nonlinear_arith);
}

/// A grid has at most this many cells: a bid for a cell names the bidder by
/// a flat index of 32 bits.
pub const MAX_CELLS: u64 = 0x1_0000_0000;

/// The state of the simulation at one instant: one occupancy flag per cell
/// and one dense array per attribute channel, both in row-major order.
pub struct Grid<T> {
    pub width: usize,
    pub height: usize,
    /// `traits[t][row * width + col]` is channel `t` of the cell.
    pub traits: Vec<Vec<T>>,
    /// Zero where an agent sits, non-zero where the cell is vacant.
    pub is_empty: Vec<u8>,
    /// What the channels of a vacant cell hold.
    pub blank: T,
}

impl<T: Copy> Grid<T> {
    /// The number of cells.
    pub open spec fn cells(&self) -> int {
        self.width * self.height
    }

    /// The number of attribute channels.
    pub open spec fn channels(&self) -> int {
        self.traits@.len() as int
    }

    /// Every array has one entry per cell, and there is at least one cell
    /// and no more cells than a bid can name.
    pub open spec fn wf(&self) -> bool {
        &&& self.width > 0
        &&& self.height > 0
        &&& self.width * self.height <= usize::MAX
        &&& self.width * self.height <= MAX_CELLS
        &&& self.is_empty@.len() == self.width * self.height
        &&& forall|t: int| 0 <= t < self.traits@.len() ==> (#[trigger] self.traits@[t])@.len() == self.width * self.height
    }

    /// Two grids that can serve as each other's buffer.
    pub open spec fn same_shape(&self, other: &Grid<T>) -> bool {
        &&& self.width == other.width
        &&& self.height == other.height
        &&& self.traits@.len() == other.traits@.len()
    }

    /// Whether an agent sits on the cell with flat index `i`.
    pub open spec fn occupied(&self, i: int) -> bool {
        self.is_empty@[i] == 0
    }

    /// Channel `t` of the cell with flat index `i`.
    pub open spec fn value(&self, t: int, i: int) -> T {
        self.traits@[t]@[i]
    }

    /// The flat index of a cell.
    pub open spec fn flat(&self, row: int, col: int) -> int {
        row * self.width + col
    }

    /// Which cells hold an agent, by flat index.
    pub open spec fn occupancy(&self) -> Seq<bool> {
        occupancy_of(self.is_empty@)
    }

    /// The number of agents on the grid.
    pub open spec fn filled(&self) -> nat {
        occupied_set(self.occupancy()).len()
    }

    /// The flat index of a cell of the grid lies in the grid, and row and
    /// column can be read off it.
    pub proof fn lemma_flat_in_range(&self, row: int, col: int)
        requires
            0 <= row < self.height,
            0 <= col < self.width,
        ensures
            0 <= self.flat(row, col) < self.cells(),
            self.flat(row, col) / (self.width as int) == row,
            self.flat(row, col) % (self.width as int) == col,
    {
        let w = self.width as int;
        let h = self.height as int;
        assert(0 <= row * w && (row + 1) * w <= w * h && (row + 1) * w == row * w + w && row * w == w * row)
            by (nonlinear_arith)
            requires 0 <= row < h, 0 < w;
        lemma_fundamental_div_mod_converse(row * w + col, w, row, col);
    }

    /// Why a grid of `width` by `height` cells cannot be built, if it cannot.
    pub open spec fn size_verdict(width: usize, height: usize) -> Option<ConfigError> {
        if width == 0 || height == 0 {
            Some(ConfigError::ZeroSizedGrid)
        } else if width * height > usize::MAX || width * height > MAX_CELLS {
            Some(ConfigError::GridTooLarge)
        } else {
            None
        }
    }

    /// Cell `i` is as `occupy` and `sample` made it: an agent with channels
    /// that `sample` may give for the cell where `occupy` may say yes, and
    /// a vacant cell of blanks where `occupy` may say no.
    pub open spec fn cell_drawn<O: Fn(usize, usize) -> bool, S: Fn(usize, usize, usize) -> T>(
        &self,
        occupy: &O,
        sample: &S,
        i: int,
    ) -> bool {
        let row = (i / (self.width as int)) as usize;
        let col = (i % (self.width as int)) as usize;
        if self.is_empty@[i] == 0 {
            &&& call_ensures(*occupy, (row, col), true)
            &&& forall|t: int|
                0 <= t < self.channels() ==> call_ensures(*sample, (t as usize, row, col), #[trigger] self.value(t, i))
        } else {
            &&& self.is_empty@[i] == 1
            &&& call_ensures(*occupy, (row, col), false)
            &&& forall|t: int| 0 <= t < self.channels() ==> #[trigger] self.value(t, i) == self.blank
        }
    }

    /// Builds a grid cell by cell, in row-major order.  `occupy` decides for
    /// each cell whether an agent sits there; where one does, `sample` gives
    /// each of its `num_traits` channels, and where none does the channels
    /// hold `blank`.  A grid without cells is turned down, and so is one
    /// with more cells than the machine can index or a bid can name.
    pub fn new_with_density<O: Fn(usize, usize) -> bool, S: Fn(usize, usize, usize) -> T>(
        width: usize,
        height: usize,
        num_traits: usize,
        blank: T,
        occupy: O,
        sample: S,
    ) -> (result: Result<Self, ConfigError>)
        requires
            forall|row: usize, col: usize| row < height && col < width ==> call_requires(occupy, (row, col)),
            forall|t: usize, row: usize, col: usize|
                t < num_traits && row < height && col < width ==> call_requires(sample, (t, row, col)),
        ensures
            match Self::size_verdict(width, height) {
                Some(error) => result == Err::<Self, ConfigError>(error),
                None => result matches Ok(grid) && {
                    &&& grid.wf()
                    &&& grid.width == width
                    &&& grid.height == height
                    &&& grid.channels() == num_traits
                    &&& grid.blank == blank
                    &&& forall|i: int| 0 <= i < grid.cells() ==> grid.cell_drawn(&occupy, &sample, i)
                },
            },
    {
        if width == 0 || height == 0 {
            return Err(ConfigError::ZeroSizedGrid);
        }
        let len: usize = match width.checked_mul(height) {
            Some(len) => len,
            None => {
                return Err(ConfigError::GridTooLarge);
            },
        };
        if len as u64 > MAX_CELLS {
            return Err(ConfigError::GridTooLarge);
        }
        let mut traits: Vec<Vec<T>> = Vec::with_capacity(num_traits);
        let mut t: usize = 0;
        while t < num_traits
            invariant
                t <= num_traits,
                traits@.len() == t,
                forall|u: int| 0 <= u < t ==> (#[trigger] traits@[u])@.len() == len,
                forall|u: int, k: int| 0 <= u < t && 0 <= k < len ==> #[trigger] traits@[u]@[k] == blank,
            decreases num_traits - t,
        {
            traits.push(filled_with(blank, len));
            t += 1;
        }
        let mut grid = Self { width, height, traits, is_empty: filled_with(1u8, len), blank };
        let mut idx: usize = 0;
        while idx < len
            invariant
                grid.wf(),
                grid.width == width,
                grid.height == height,
                grid.channels() == num_traits,
                grid.blank == blank,
                len == width * height,
                idx <= len,
                forall|row: usize, col: usize| row < height && col < width ==> call_requires(occupy, (row, col)),
                forall|t: usize, row: usize, col: usize|
                    t < num_traits && row < height && col < width ==> call_requires(sample, (t, row, col)),
                forall|i: int| 0 <= i < idx ==> grid.cell_drawn(&occupy, &sample, i),
                forall|i: int| idx <= i < len ==> #[trigger] grid.is_empty@[i] == 1,
                forall|u: int, i: int| 0 <= u < num_traits && idx <= i < len ==> #[trigger] grid.value(u, i) == blank,
            decreases len - idx,
        {
            let (row, col) = grid.coords(idx);
            let ghost before = grid;
            if occupy(row, col) {
                grid.is_empty[idx] = 0;
                let ghost flagged = grid;
                let mut t: usize = 0;
                while t < num_traits
                    invariant
                        grid.wf(),
                        grid.width == width,
                        grid.height == height,
                        grid.channels() == num_traits,
                        grid.blank == blank,
                        grid.is_empty == flagged.is_empty,
                        len == width * height,
                        idx < len,
                        row < height,
                        col < width,
                        t <= num_traits,
                        forall|t: usize, row: usize, col: usize|
                            t < num_traits && row < height && col < width ==> call_requires(sample, (t, row, col)),
                        forall|u: int, i: int|
                            0 <= u < num_traits && 0 <= i < len && i != idx ==> #[trigger] grid.value(u, i) == flagged.value(
                                u,
                                i,
                            ),
                        forall|u: int| 0 <= u < t ==> call_ensures(sample, (u as usize, row, col), #[trigger] grid.value(u, idx as int)),
                    decreases num_traits - t,
                {
                    let value: T = sample(t, row, col);
                    let ghost inner = grid;
                    grid.set_flat(t, idx, value);
                    assert forall|u: int| 0 <= u < t + 1 implies call_ensures(
                        sample,
                        (u as usize, row, col),
                        #[trigger] grid.value(u, idx as int),
                    ) by {
                        if u < t {
                            assert(grid.value(u, idx as int) == inner.value(u, idx as int));
                        }
                    }
                    t += 1;
                }
                assert(grid.cell_drawn(&occupy, &sample, idx as int));
                assert forall|u: int, i: int| 0 <= u < num_traits && 0 <= i < len && i != idx implies #[trigger] grid.value(
                    u,
                    i,
                ) == before.value(u, i) by {
                    assert(grid.value(u, i) == flagged.value(u, i));
                    assert(flagged.traits == before.traits);
                }
            } else {
                assert(grid.cell_drawn(&occupy, &sample, idx as int));
            }
            assert forall|i: int| 0 <= i < idx implies grid.cell_drawn(&occupy, &sample, i) by {
                assert(before.cell_drawn(&occupy, &sample, i));
                assert(grid.is_empty@[i] == before.is_empty@[i]);
                assert forall|u: int| 0 <= u < num_traits implies #[trigger] grid.value(u, i) == before.value(u, i) by {}
            }
            assert forall|u: int, i: int| 0 <= u < num_traits && idx + 1 <= i < len implies #[trigger] grid.value(u, i)
                == blank by {
                assert(grid.value(u, i) == before.value(u, i));
            }
            idx += 1;
        }
        Ok(grid)
    }

    /// Builds a grid with an agent on every cell, each of its `num_traits`
    /// channels as `sample` gives it.  The grids that `new_with_density`
    /// turns down are turned down here too.
    pub fn new<S: Fn(usize, usize, usize) -> T>(width: usize, height: usize, num_traits: usize, blank: T, sample: S) -> (result:
        Result<Self, ConfigError>)
        requires
            forall|t: usize, row: usize, col: usize|
                t < num_traits && row < height && col < width ==> call_requires(sample, (t, row, col)),
        ensures
            match Self::size_verdict(width, height) {
                Some(error) => result == Err::<Self, ConfigError>(error),
                None => result matches Ok(grid) && {
                    &&& grid.wf()
                    &&& grid.width == width
                    &&& grid.height == height
                    &&& grid.channels() == num_traits
                    &&& grid.blank == blank
                    &&& forall|i: int| 0 <= i < grid.cells() ==> #[trigger] grid.is_empty@[i] == 0
                    &&& forall|t: int, i: int|
                        0 <= t < num_traits && 0 <= i < grid.cells() ==> call_ensures(
                            sample,
                            (t as usize, (i / (width as int)) as usize, (i % (width as int)) as usize),
                            #[trigger] grid.value(t, i),
                        )
                },
            },
    {
        let everywhere = |_row: usize, _col: usize| -> (occupied: bool)
            ensures
                occupied,
            { true };
        let result = Self::new_with_density(width, height, num_traits, blank, everywhere, sample);
        proof {
            if result is Ok {
                let grid = result->Ok_0;
                assert forall|i: int| 0 <= i < grid.cells() implies #[trigger] grid.is_empty@[i] == 0 by {
                    assert(grid.cell_drawn(&everywhere, &sample, i));
                }
                assert forall|t: int, i: int| 0 <= t < num_traits && 0 <= i < grid.cells() implies call_ensures(
                    sample,
                    (t as usize, (i / (width as int)) as usize, (i % (width as int)) as usize),
                    #[trigger] grid.value(t, i),
                ) by {
                    assert(grid.cell_drawn(&everywhere, &sample, i));
                }
            }
        }
        result
    }

    /// Cell `i` is as `sample` remade it: an agent has channels that
    /// `sample` may give for its cell, and a vacant cell is as it was.
    pub open spec fn cell_redrawn<S: Fn(usize, usize, usize) -> T>(&self, before: &Grid<T>, sample: &S, i: int) -> bool {
        let row = (i / (self.width as int)) as usize;
        let col = (i % (self.width as int)) as usize;
        forall|t: int|
            0 <= t < self.channels() ==> if before.is_empty@[i] == 0 {
                call_ensures(*sample, (t as usize, row, col), #[trigger] self.value(t, i))
            } else {
                self.value(t, i) == before.value(t, i)
            }
    }

    /// Gives every agent new channel values from `sample` and leaves vacant
    /// cells and the occupancy alone.
    pub fn randomize<S: Fn(usize, usize, usize) -> T>(&mut self, sample: S)
        requires
            old(self).wf(),
            forall|t: usize, row: usize, col: usize|
                t < old(self).channels() && row < old(self).height && col < old(self).width ==> call_requires(
                    sample,
                    (t, row, col),
                ),
        ensures
            final(self).wf(),
            final(self).same_shape(old(self)),
            final(self).is_empty == old(self).is_empty,
            final(self).blank == old(self).blank,
            forall|i: int| 0 <= i < final(self).cells() ==> final(self).cell_redrawn(old(self), &sample, i),
    {
        let len: usize = self.is_empty.len();
        let num_traits: usize = self.traits.len();
        let mut idx: usize = 0;
        while idx < len
            invariant
                self.wf(),
                self.same_shape(old(self)),
                self.is_empty == old(self).is_empty,
                self.blank == old(self).blank,
                len == self.cells(),
                num_traits == self.channels(),
                idx <= len,
                forall|t: usize, row: usize, col: usize|
                    t < num_traits && row < self.height && col < self.width ==> call_requires(sample, (t, row, col)),
                forall|i: int| 0 <= i < idx ==> self.cell_redrawn(old(self), &sample, i),
                forall|u: int, i: int| 0 <= u < num_traits && idx <= i < len ==> #[trigger] self.value(u, i) == old(self).value(u, i),
            decreases len - idx,
        {
            let ghost before = *self;
            if self.is_empty[idx] == 0 {
                let (row, col) = self.coords(idx);
                let mut t: usize = 0;
                while t < num_traits
                    invariant
                        self.wf(),
                        self.same_shape(old(self)),
                        self.is_empty == old(self).is_empty,
                        self.blank == old(self).blank,
                        len == self.cells(),
                        num_traits == self.channels(),
                        idx < len,
                        row < self.height,
                        col < self.width,
                        row == idx as int / (self.width as int),
                        col == idx as int % (self.width as int),
                        t <= num_traits,
                        forall|t: usize, row: usize, col: usize|
                            t < num_traits && row < self.height && col < self.width ==> call_requires(sample, (t, row, col)),
                        forall|u: int, i: int|
                            0 <= u < num_traits && 0 <= i < len && i != idx ==> #[trigger] self.value(u, i) == before.value(
                                u,
                                i,
                            ),
                        forall|u: int| 0 <= u < t ==> call_ensures(sample, (u as usize, row, col), #[trigger] self.value(u, idx as int)),
                    decreases num_traits - t,
                {
                    let value: T = sample(t, row, col);
                    let ghost inner = *self;
                    self.set_flat(t, idx, value);
                    assert forall|u: int| 0 <= u < t + 1 implies call_ensures(
                        sample,
                        (u as usize, row, col),
                        #[trigger] self.value(u, idx as int),
                    ) by {
                        if u < t {
                            assert(self.value(u, idx as int) == inner.value(u, idx as int));
                        }
                    }
                    t += 1;
                }
            }
            assert(self.cell_redrawn(old(self), &sample, idx as int));
            assert forall|i: int| 0 <= i < idx implies self.cell_redrawn(old(self), &sample, i) by {
                assert(before.cell_redrawn(old(self), &sample, i));
                assert forall|u: int| 0 <= u < num_traits implies #[trigger] self.value(u, i) == before.value(u, i) by {}
            }
            idx += 1;
        }
    }

    /// Whether every array has one entry per cell and there is at least
    /// one cell.
    pub fn is_well_formed(&self) -> (ok: bool)
        ensures
            ok == self.wf(),
    {
        if self.width == 0 || self.height == 0 {
            return false;
        }
        let len: usize = match self.width.checked_mul(self.height) {
            Some(len) => len,
            None => {
                return false;
            },
        };
        if len as u64 > MAX_CELLS {
            return false;
        }
        if self.is_empty.len() != len {
            return false;
        }
        let mut t: usize = 0;
        while t < self.traits.len()
            invariant
                len == self.width * self.height,
                t <= self.traits@.len(),
                forall|u: int| 0 <= u < t ==> (#[trigger] self.traits@[u])@.len() == len,
            decreases self.traits@.len() - t,
        {
            if self.traits[t].len() != len {
                return false;
            }
            t += 1;
        }
        true
    }

    /// The number of attribute channels.
    pub fn num_traits(&self) -> (n: usize)
        ensures
            n == self.channels(),
    {
        self.traits.len()
    }

    /// The flat index of the cell at `(row, col)`.
    pub fn idx(&self, row: usize, col: usize) -> (i: usize)
        requires
            self.wf(),
            row < self.height,
            col < self.width,
        ensures
            i == self.flat(row as int, col as int),
            i < self.cells(),
    {
        proof {
            self.lemma_flat_in_range(row as int, col as int);
            assert(0 <= row * self.width) by (nonlinear_arith)
                requires 0 <= row, 0 <= self.width;
        }
        row * self.width + col
    }

    /// Brings a signed coordinate onto an axis of length `max`.
    pub fn wrap(&self, v: isize, max: usize) -> (r: usize)
        requires
            max > 0,
        ensures
            r == wrap_spec(v as int, max as int),
            r < max,
    {
        if v >= 0 {
            (v as usize) % max
        } else {
            let k: usize = (-(v + 1)) as usize;
            let m: usize = k % max;
            proof {
                lemma_wrap_negative(v as int, max as int);
            }
            max - 1 - m
        }
    }

    /// A flat index splits into the row and the column that it came from.
    pub proof fn lemma_coords_of_flat(&self, i: int)
        requires
            self.width > 0,
            0 <= i < self.cells(),
        ensures
            0 <= i / (self.width as int) < self.height,
            0 <= i % (self.width as int) < self.width,
            self.flat(i / (self.width as int), i % (self.width as int)) == i,
    {
        lemma_split_flat(i, self.width as int, self.height as int);
    }

    /// The row and the column of a flat index.
    pub fn coords(&self, i: usize) -> (pos: (usize, usize))
        requires
            self.wf(),
            i < self.cells(),
        ensures
            pos.0 < self.height,
            pos.1 < self.width,
            pos.0 == i as int / (self.width as int),
            pos.1 == i as int % (self.width as int),
            self.flat(pos.0 as int, pos.1 as int) == i,
    {
        proof {
            self.lemma_coords_of_flat(i as int);
        }
        (i / self.width, i % self.width)
    }

    /// The cell reached from `(row, col)` by a signed step on the torus.
    pub fn offset_position(&self, row: usize, col: usize, dr: isize, dc: isize) -> (pos: (usize, usize))
        requires
            self.wf(),
        ensures
            pos.0 == wrap_spec(row + dr, self.height as int),
            pos.1 == wrap_spec(col + dc, self.width as int),
            pos.0 < self.height,
            pos.1 < self.width,
    {
        let step_r: usize = self.wrap(dr, self.height);
        let step_c: usize = self.wrap(dc, self.width);
        proof {
            lemma_add_mod_noop_right(row as int, dr as int, self.height as int);
            lemma_add_mod_noop_right(col as int, dc as int, self.width as int);
        }
        (shift_on_axis(row, step_r, 0, self.height), shift_on_axis(col, step_c, 0, self.width))
    }

    /// The cell that a signed coordinate pair denotes on the torus.
    pub fn get_position(&self, row: isize, col: isize) -> (pos: (usize, usize))
        requires
            self.wf(),
        ensures
            pos.0 == wrap_spec(row as int, self.height as int),
            pos.1 == wrap_spec(col as int, self.width as int),
            pos.0 < self.height,
            pos.1 < self.width,
    {
        (self.wrap(row, self.height), self.wrap(col, self.width))
    }

    /// The occupancy flag of a cell: zero where an agent sits.
    pub fn is_cell_empty(&self, row: usize, col: usize) -> (flag: u8)
        requires
            self.wf(),
            row < self.height,
            col < self.width,
        ensures
            flag == self.is_empty@[self.flat(row as int, col as int)],
    {
        let i: usize = self.idx(row, col);
        self.is_empty[i]
    }

    /// One channel of one cell.
    pub fn get_cell_trait(&self, row: usize, col: usize, trait_idx: usize) -> (value: T)
        requires
            self.wf(),
            row < self.height,
            col < self.width,
            trait_idx < self.channels(),
        ensures
            value == self.value(trait_idx as int, self.flat(row as int, col as int)),
    {
        let i: usize = self.idx(row, col);
        self.traits[trait_idx][i]
    }

    /// One channel of the cell that a signed coordinate pair denotes.
    pub fn get_wrapped_cell_trait(&self, row: isize, col: isize, trait_idx: usize) -> (value: T)
        requires
            self.wf(),
            trait_idx < self.channels(),
        ensures
            value == self.value(
                trait_idx as int,
                self.flat(wrap_spec(row as int, self.height as int), wrap_spec(col as int, self.width as int)),
            ),
    {
        let (r, c) = self.get_position(row, col);
        self.get_cell_trait(r, c, trait_idx)
    }

    /// The occupancy flag of the cell that a signed coordinate pair denotes.
    pub fn is_wrapped_empty(&self, row: isize, col: isize) -> (flag: u8)
        requires
            self.wf(),
        ensures
            flag == self.is_empty@[self.flat(
                wrap_spec(row as int, self.height as int),
                wrap_spec(col as int, self.width as int),
            )],
    {
        let (r, c) = self.get_position(row, col);
        self.is_cell_empty(r, c)
    }

    /// Overwrites one channel of one cell and nothing else.
    pub fn set_cell_trait(&mut self, row: usize, col: usize, trait_idx: usize, value: T)
        requires
            old(self).wf(),
            row < old(self).height,
            col < old(self).width,
            trait_idx < old(self).channels(),
        ensures
            final(self).wf(),
            final(self).width == old(self).width,
            final(self).height == old(self).height,
            final(self).is_empty == old(self).is_empty,
            final(self).blank == old(self).blank,
            final(self).traits@.len() == old(self).traits@.len(),
            final(self).traits@[trait_idx as int]@ == old(self).traits@[trait_idx as int]@.update(
                old(self).flat(row as int, col as int),
                value,
            ),
            forall|t: int| 0 <= t < old(self).traits@.len() && t != trait_idx
                ==> final(self).traits@[t] == old(self).traits@[t],
    {
        let pos: usize = self.idx(row, col);
        self.traits[trait_idx][pos] = value;
    }

    /// Overwrites one channel of the cell with flat index `i` and nothing else.
    pub fn set_flat(&mut self, trait_idx: usize, i: usize, value: T)
        requires
            old(self).wf(),
            trait_idx < old(self).channels(),
            i < old(self).cells(),
        ensures
            final(self).wf(),
            final(self).width == old(self).width,
            final(self).height == old(self).height,
            final(self).is_empty == old(self).is_empty,
            final(self).blank == old(self).blank,
            final(self).traits@.len() == old(self).traits@.len(),
            forall|t: int, k: int|
                0 <= t < old(self).channels() && 0 <= k < old(self).cells() ==> #[trigger] final(self).value(t, k) == if t
                    == trait_idx && k == i {
                    value
                } else {
                    old(self).value(t, k)
                },
    {
        self.traits[trait_idx][i] = value;
    }

    /// Marks one cell as vacant or as occupied and changes nothing else.
    pub fn set_empty(&mut self, row: usize, col: usize, empty: bool)
        requires
            old(self).wf(),
            row < old(self).height,
            col < old(self).width,
        ensures
            final(self).wf(),
            final(self).width == old(self).width,
            final(self).height == old(self).height,
            final(self).traits == old(self).traits,
            final(self).blank == old(self).blank,
            final(self).is_empty@ == old(self).is_empty@.update(
                old(self).flat(row as int, col as int),
                if empty { 1u8 } else { 0u8 },
            ),
    {
        let pos: usize = self.idx(row, col);
        self.is_empty[pos] = if empty { 1u8 } else { 0u8 };
    }

    /// Exchanges the cell contents of two buffers of one shape.
    pub fn update_grid(&mut self, new_grid: &mut Grid<T>)
        requires
            old(self).wf(),
            old(new_grid).wf(),
            old(self).same_shape(old(new_grid)),
        ensures
            final(self).wf(),
            final(new_grid).wf(),
            final(self).traits == old(new_grid).traits,
            final(self).is_empty == old(new_grid).is_empty,
            final(new_grid).traits == old(self).traits,
            final(new_grid).is_empty == old(self).is_empty,
            final(self).width == old(self).width,
            final(self).height == old(self).height,
            final(self).blank == old(self).blank,
            final(new_grid).width == old(new_grid).width,
            final(new_grid).height == old(new_grid).height,
            final(new_grid).blank == old(new_grid).blank,
    {
        std::mem::swap(&mut self.traits, &mut new_grid.traits);
        std::mem::swap(&mut self.is_empty, &mut new_grid.is_empty);
    }

    /// A copy of one channel, in row-major order.
    pub fn get_cell_trait_array(&self, trait_index: usize) -> (values: Vec<T>)
        requires
            trait_index < self.channels(),
        ensures
            values@ == self.traits@[trait_index as int]@,
    {
        let source = &self.traits[trait_index];
        let mut values: Vec<T> = Vec::with_capacity(source.len());
        let mut i: usize = 0;
        while i < source.len()
            invariant
                i <= source@.len(),
                values@ == source@.take(i as int),
            decreases source@.len() - i,
        {
            values.push(source[i]);
            i += 1;
        }
        values
    }

    /// The number of agents on the grid.
    pub fn count_filled_cells(&self) -> (count: usize)
        ensures
            count == self.filled(),
    {
        let mut count: usize = 0;
        let mut i: usize = 0;
        proof {
            lemma_occupied_finite(self.occupancy(), 0);
            assert(occupied_upto(self.occupancy(), 0) =~= Set::<int>::empty());
        }
        while i < self.is_empty.len()
            invariant
                i <= self.is_empty@.len(),
                count == occupied_upto(self.occupancy(), i as int).len(),
                count <= i,
            decreases self.is_empty@.len() - i,
        {
            proof {
                lemma_occupied_step(self.occupancy(), i as int);
            }
            if self.is_empty[i] == 0 {
                count += 1;
            }
            i += 1;
        }
        count
    }
}

} // verus!
