use vstd::prelude::*;

use crate::value::{all_digits, digit, lemma_digit_injective, Value, ValueSet};

verus! {

/// Names one of the 27 sets of placed digits: a column, a row or a 3x3 block.
#[derive(Clone, Copy, Debug)]
pub enum Grid {
    Column(u8),
    Row(u8),
    Block(u8),
}

impl Grid {
    pub open spec fn valid(self) -> bool {
        match self {
            Grid::Column(v) => v < 9,
            Grid::Row(v) => v < 9,
            Grid::Block(v) => v < 9,
        }
    }

    /// Columns come first, then rows, then blocks.
    pub open spec fn slot(self) -> int {
        match self {
            Grid::Column(v) => v as int,
            Grid::Row(v) => 9 + v,
            Grid::Block(v) => 18 + v,
        }
    }

    fn slot_index(&self) -> (r: usize)
        requires
            self.valid(),
        ensures
            r == self.slot(),
            r < 27,
    {
        match *self {
            Grid::Column(v) => v as usize,
            Grid::Row(v) => 9 + v as usize,
            Grid::Block(v) => 18 + v as usize,
        }
    }
}

/// Cells are numbered row by row: cell `9 * y + x` is column `x` of row `y`.
pub open spec fn row_of(i: int) -> int {
    i / 9
}

pub open spec fn col_of(i: int) -> int {
    i % 9
}

pub open spec fn block_of(i: int) -> int {
    3 * (row_of(i) / 3) + col_of(i) / 3
}

/// Whether cell `i` lies in the column, row or block of slot `g`.
pub open spec fn in_grid(i: int, g: int) -> bool {
    g == col_of(i) || g == 9 + row_of(i) || g == 18 + block_of(i)
}

/// Whether two cells share a row, a column or a block.
pub open spec fn same_unit(i: int, j: int) -> bool {
    row_of(i) == row_of(j) || col_of(i) == col_of(j) || block_of(i) == block_of(j)
}

/// Whether cell `i` holds digit `d`.
pub open spec fn holds(cells: Seq<Option<Value>>, i: int, d: nat) -> bool {
    cells[i] is Some && digit(cells[i]->0) == d
}

/// The digits placed in the cells of slot `g`.
pub open spec fn derived(cells: Seq<Option<Value>>, g: int) -> Set<nat> {
    Set::new(|d: nat| exists|i: int| 0 <= i < 81 && in_grid(i, g) && #[trigger] holds(cells, i, d))
}

/// No digit appears twice in a row, a column or a block.
pub open spec fn consistent(cells: Seq<Option<Value>>) -> bool {
    forall|i: int, j: int|
        0 <= i < 81 && 0 <= j < 81 && i != j && same_unit(i, j) && #[trigger] cells[i] is Some
            && #[trigger] cells[j] is Some ==> cells[i] != cells[j]
}

/// Every cell holds a digit.
pub open spec fn full(cells: Seq<Option<Value>>) -> bool {
    cells.len() == 81 && forall|i: int| 0 <= i < 81 ==> #[trigger] cells[i] is Some
}

/// A filled grid that breaks no rule.
pub open spec fn solved(cells: Seq<Option<Value>>) -> bool {
    full(cells) && consistent(cells)
}

/// The digits that the temporary entries of `log` add to slot `g`.
pub open spec fn overlay(log: Seq<(Grid, ValueSet)>, g: int) -> Set<nat> {
    Set::new(
        |d: nat|
            exists|k: int| 0 <= k < log.len() && log[k].0.slot() == g && #[trigger] log[k].1@.contains(d),
    )
}

pub open spec fn opt_digits(c: Option<Value>) -> Set<nat> {
    match c {
        Some(v) => set![digit(v)],
        None => Set::empty(),
    }
}

/// Cell `9 * y + x` lies in column `x` and row `y`.
pub proof fn lemma_cell_coords(x: int, y: int)
    requires
        0 <= x < 9,
        0 <= y < 9,
    ensures
        row_of(9 * y + x) == y,
        col_of(9 * y + x) == x,
        block_of(9 * y + x) == 3 * (y / 3) + x / 3,
        0 <= 9 * y + x < 81,
{
}

pub proof fn lemma_unit_bounds(i: int)
    requires
        0 <= i < 81,
    ensures
        0 <= row_of(i) < 9,
        0 <= col_of(i) < 9,
        0 <= block_of(i) < 9,
        i == 9 * row_of(i) + col_of(i),
{
}

/// Two cells of one slot share a unit, and a cell sharing a unit with `i` lies in one of
/// the three slots of `i`.
pub proof fn lemma_in_grid_same_unit(i: int, j: int, g: int)
    requires
        0 <= i < 81,
        0 <= j < 81,
    ensures
        in_grid(i, g) && in_grid(j, g) ==> same_unit(i, j),
        same_unit(i, j) ==> in_grid(j, col_of(i)) || in_grid(j, 9 + row_of(i)) || in_grid(
            j,
            18 + block_of(i),
        ),
        in_grid(i, col_of(i)) && in_grid(i, 9 + row_of(i)) && in_grid(i, 18 + block_of(i)),
{
    lemma_unit_bounds(i);
    lemma_unit_bounds(j);
}

/// The digits of slot `g` after cell `i` is set to `c`.
pub proof fn lemma_derived_update(cells: Seq<Option<Value>>, i: int, c: Option<Value>, g: int)
    requires
        cells.len() == 81,
        0 <= i < 81,
        0 <= g < 27,
        consistent(cells),
    ensures
        in_grid(i, g) ==> derived(cells.update(i, c), g) == derived(cells, g).difference(
            opt_digits(cells[i]),
        ).union(opt_digits(c)),
        !in_grid(i, g) ==> derived(cells.update(i, c), g) == derived(cells, g),
{
    let n = cells.update(i, c);
    if in_grid(i, g) {
        let rhs = derived(cells, g).difference(opt_digits(cells[i])).union(opt_digits(c));
        assert forall|d: nat| derived(n, g).contains(d) implies rhs.contains(d) by {
            let j = choose|j: int| 0 <= j < 81 && in_grid(j, g) && #[trigger] holds(n, j, d);
            if j != i {
                assert(holds(cells, j, d));
                assert(derived(cells, g).contains(d));
                if cells[i] is Some && digit(cells[i]->0) == d {
                    lemma_in_grid_same_unit(i, j, g);
                    lemma_digit_injective(cells[i]->0, cells[j]->0);
                    assert(cells[i] != cells[j]);
                }
            }
        }
        assert forall|d: nat| rhs.contains(d) implies derived(n, g).contains(d) by {
            if opt_digits(c).contains(d) {
                assert(holds(n, i, d));
            } else {
                let j = choose|j: int| 0 <= j < 81 && in_grid(j, g) && #[trigger] holds(cells, j, d);
                assert(j != i);
                assert(holds(n, j, d));
            }
        }
        assert(derived(n, g) =~= rhs);
    } else {
        assert forall|d: nat| derived(n, g).contains(d) implies derived(cells, g).contains(d) by {
            let j = choose|j: int| 0 <= j < 81 && in_grid(j, g) && #[trigger] holds(n, j, d);
            assert(holds(cells, j, d));
        }
        assert forall|d: nat| derived(cells, g).contains(d) implies derived(n, g).contains(d) by {
            let j = choose|j: int| 0 <= j < 81 && in_grid(j, g) && #[trigger] holds(cells, j, d);
            assert(holds(n, j, d));
        }
        assert(derived(n, g) =~= derived(cells, g));
    }
}

/// Each temporary entry is part of the overlay of its slot.
pub proof fn lemma_overlay_entry(log: Seq<(Grid, ValueSet)>, k: int)
    requires
        0 <= k < log.len(),
    ensures
        log[k].1@.subset_of(overlay(log, log[k].0.slot())),
{
}

/// A 9x9 board: 81 optional digits and, for each column, row and block, the set of
/// digits placed there, plus a stack of temporary additions to those sets.
pub struct Redoku {
    cells: Vec<Option<Value>>,
    grid_values: Vec<ValueSet>,
    temp_grid_values: Vec<(Grid, ValueSet)>,
}

impl Redoku {
    pub closed spec fn cells(&self) -> Seq<Option<Value>> {
        self.cells@
    }

    pub closed spec fn grids(&self) -> Seq<ValueSet> {
        self.grid_values@
    }

    pub closed spec fn temps(&self) -> Seq<(Grid, ValueSet)> {
        self.temp_grid_values@
    }

    /// The digits held by slot `g` (placed digits and temporary ones).
    pub open spec fn grid(&self, g: int) -> Set<nat> {
        self.grids()[g]@
    }

    /// The digits that may not be placed in cell `i`.
    pub open spec fn forbidden(&self, i: int) -> Set<nat> {
        self.grid(col_of(i)).union(self.grid(9 + row_of(i))).union(self.grid(18 + block_of(i)))
    }

    pub open spec fn wf(&self) -> bool {
        &&& self.cells().len() == 81
        &&& self.grids().len() == 27
        &&& forall|g: int| 0 <= g < 27 ==> (#[trigger] self.grids()[g]).wf()
        &&& consistent(self.cells())
        &&& forall|k: int|
            0 <= k < self.temps().len() ==> (#[trigger] self.temps()[k]).0.valid()
                && self.temps()[k].1.wf()
        &&& forall|k1: int, k2: int|
            0 <= k1 < self.temps().len() && 0 <= k2 < self.temps().len() && k1 != k2
                && (#[trigger] self.temps()[k1]).0.slot() == (#[trigger] self.temps()[k2]).0.slot()
                ==> self.temps()[k1].1@.disjoint(self.temps()[k2].1@)
        &&& forall|k: int|
            0 <= k < self.temps().len() ==> (#[trigger] self.temps()[k]).1@.disjoint(
                derived(self.cells(), self.temps()[k].0.slot()),
            )
        &&& forall|g: int|
            0 <= g < 27 ==> #[trigger] self.grid(g) == derived(self.cells(), g).union(
                overlay(self.temps(), g),
            )
    }

    /// The board holds the same cells, sets and temporary entries as `other`.
    pub open spec fn same_state(&self, other: &Redoku) -> bool {
        self.cells() == other.cells() && self.grids() == other.grids() && self.temps()
            == other.temps()
    }
}


/// Setting cell `i` to `c`, with each slot of `i` losing the old digit and gaining the new
/// one, keeps a board well formed when the new digit is not forbidden there.
proof fn lemma_update_wf(b0: Redoku, b1: Redoku, i: int, c: Option<Value>)
    requires
        b0.wf(),
        0 <= i < 81,
        b1.cells() == b0.cells().update(i, c),
        b1.temps() == b0.temps(),
        b1.grids().len() == 27,
        forall|g: int| 0 <= g < 27 ==> (#[trigger] b1.grids()[g]).wf(),
        forall|g: int|
            0 <= g < 27 && in_grid(i, g) ==> #[trigger] b1.grid(g) == b0.grid(g).difference(
                opt_digits(b0.cells()[i]),
            ).union(opt_digits(c)),
        forall|g: int| 0 <= g < 27 && !in_grid(i, g) ==> #[trigger] b1.grid(g) == b0.grid(g),
        c is Some ==> !b0.forbidden(i).contains(digit(c->0)),
    ensures
        b1.wf(),
{
    let c0 = b0.cells();
    let c1 = b1.cells();
    let log = b0.temps();
    lemma_in_grid_same_unit(i, i, 0);
    lemma_unit_bounds(i);
    // a digit of another cell sharing a unit with `i` is forbidden at `i`
    assert forall|q: int| 0 <= q < 81 && q != i && same_unit(i, q) && c0[q] is Some implies b0.forbidden(
        i,
    ).contains(digit(c0[q]->0)) by {
        lemma_in_grid_same_unit(i, q, 0);
        let d = digit(c0[q]->0);
        assert(holds(c0, q, d));
        if in_grid(q, col_of(i)) {
            assert(derived(c0, col_of(i)).contains(d));
        } else if in_grid(q, 9 + row_of(i)) {
            assert(derived(c0, 9 + row_of(i)).contains(d));
        } else {
            assert(derived(c0, 18 + block_of(i)).contains(d));
        }
    }
    assert forall|p: int, q: int|
        0 <= p < 81 && 0 <= q < 81 && p != q && same_unit(p, q) && #[trigger] c1[p] is Some
            && #[trigger] c1[q] is Some implies c1[p] != c1[q] by {
        if p == i {
            assert(c0[q] is Some);
            assert(b0.forbidden(i).contains(digit(c0[q]->0)));
        } else if q == i {
            lemma_in_grid_same_unit(p, i, 0);
            lemma_in_grid_same_unit(i, p, 0);
            assert(same_unit(i, p));
            assert(b0.forbidden(i).contains(digit(c0[p]->0)));
        } else {
            assert(c0[p] == c1[p] && c0[q] == c1[q]);
        }
    }
    // the overlay of a slot never meets its placed digits
    assert forall|g: int| 0 <= g < 27 implies #[trigger] overlay(log, g).disjoint(derived(c0, g)) by {
        assert forall|d: nat| overlay(log, g).contains(d) implies !derived(c0, g).contains(d) by {
            let k = choose|k: int|
                0 <= k < log.len() && log[k].0.slot() == g && #[trigger] log[k].1@.contains(d);
            assert(log[k].1@.disjoint(derived(c0, log[k].0.slot())));
        }
    }
    assert forall|g: int| 0 <= g < 27 implies #[trigger] b1.grid(g) == derived(c1, g).union(
        overlay(log, g),
    ) by {
        lemma_derived_update(c0, i, c, g);
        assert(b0.grid(g) == derived(c0, g).union(overlay(log, g)));
        if in_grid(i, g) {
            assert(overlay(log, g).disjoint(derived(c0, g)));
            if c0[i] is Some {
                assert(holds(c0, i, digit(c0[i]->0)));
                assert(derived(c0, g).contains(digit(c0[i]->0)));
            }
            assert(b1.grid(g) =~= derived(c1, g).union(overlay(log, g)));
        }
    }
    assert forall|k: int| 0 <= k < log.len() implies (#[trigger] log[k]).1@.disjoint(
        derived(c1, log[k].0.slot()),
    ) by {
        let g = log[k].0.slot();
        lemma_derived_update(c0, i, c, g);
        lemma_overlay_entry(log, k);
        assert(log[k].1@.disjoint(derived(c0, g)));
        assert(b0.grid(g) == derived(c0, g).union(overlay(log, g)));
        if in_grid(i, g) && c is Some {
            assert(!b0.grid(g).contains(digit(c->0)));
        }
    }
}


/// A copy of a vector of plain values.
fn copy_vec<T: Copy>(v: &Vec<T>) -> (r: Vec<T>)
    ensures
        r@ == v@,
{
    let mut r: Vec<T> = Vec::new();
    let mut k: usize = 0;
    while k < v.len()
        invariant
            k <= v.len(),
            r@ == v@.subrange(0, k as int),
        decreases v.len() - k,
    {
        r.push(v[k]);
        k = k + 1;
        proof {
            assert(r@ =~= v@.subrange(0, k as int));
        }
    }
    proof {
        assert(r@ =~= v@);
    }
    r
}

/// The sum of the sizes of the block sets below `n`.
pub open spec fn block_total(grids: Seq<ValueSet>, n: int) -> int
    decreases n,
{
    if n <= 0 {
        0
    } else {
        block_total(grids, n - 1) + grids[18 + n - 1]@.len()
    }
}

impl Redoku {
    /// The number of empty cells as the board counts it: 81 less the digits in the block sets.
    pub open spec fn empty_count(&self) -> int {
        81 - block_total(self.grids(), 9)
    }

    fn blank(capacity: usize) -> (r: Redoku)
        ensures
            r.wf(),
            forall|i: int| 0 <= i < 81 ==> #[trigger] r.cells()[i] is None,
            r.temps().len() == 0,
    {
        let mut cells: Vec<Option<Value>> = Vec::new();
        let mut k: usize = 0;
        while k < 81
            invariant
                k <= 81,
                cells@.len() == k,
                forall|i: int| 0 <= i < k ==> #[trigger] cells@[i] is None,
            decreases 81 - k,
        {
            cells.push(None);
            k = k + 1;
        }
        let mut grid_values: Vec<ValueSet> = Vec::new();
        let mut k: usize = 0;
        while k < 27
            invariant
                k <= 27,
                grid_values@.len() == k,
                forall|g: int|
                    0 <= g < k ==> (#[trigger] grid_values@[g]).wf() && grid_values@[g]@
                        == Set::<nat>::empty(),
            decreases 27 - k,
        {
            grid_values.push(ValueSet::empty());
            k = k + 1;
        }
        let r = Redoku { cells, grid_values, temp_grid_values: Vec::with_capacity(capacity) };
        proof {
            assert forall|g: int| 0 <= g < 27 implies #[trigger] r.grid(g) == derived(
                r.cells(),
                g,
            ).union(overlay(r.temps(), g)) by {
                assert(derived(r.cells(), g) =~= Set::<nat>::empty());
                assert(overlay(r.temps(), g) =~= Set::<nat>::empty());
                assert(r.grid(g) =~= derived(r.cells(), g).union(overlay(r.temps(), g)));
            }
        }
        r
    }

    /// An empty board.
    pub fn new() -> (r: Redoku)
        ensures
            r.wf(),
            forall|i: int| 0 <= i < 81 ==> #[trigger] r.cells()[i] is None,
            r.temps().len() == 0,
    {
        Redoku::blank(0)
    }

    /// An empty board with room for `capacity` temporary entries.
    pub fn with_capacity(capacity: usize) -> (r: Redoku)
        ensures
            r.wf(),
            forall|i: int| 0 <= i < 81 ==> #[trigger] r.cells()[i] is None,
            r.temps().len() == 0,
    {
        Redoku::blank(capacity)
    }

    /// The content of cell `(x, y)`.
    pub fn get(&self, x: u8, y: u8) -> (r: Option<Value>)
        requires
            self.wf(),
            x < 9,
            y < 9,
        ensures
            r == self.cells()[9 * y + x],
    {
        self.cells[9 * y as usize + x as usize]
    }

    /// Whether `value` is absent from the column, row and block of `(x, y)`.
    pub fn can_place(&self, x: u8, y: u8, value: Value) -> (r: bool)
        requires
            self.wf(),
            x < 9,
            y < 9,
        ensures
            r == !self.forbidden(9 * y + x).contains(digit(value)),
    {
        proof {
            lemma_cell_coords(x as int, y as int);
        }
        if self.grid_values[x as usize].contains(&value) {
            return false;
        }
        if self.grid_values[9 + y as usize].contains(&value) {
            return false;
        }
        let (block_x, block_y) = (x / 3, y / 3);
        if self.grid_values[18 + (3 * block_y + block_x) as usize].contains(&value) {
            return false;
        }
        true
    }

    /// Takes `rem` out of slot `g` and puts `add` in.
    fn update_slot(&mut self, g: usize, rem: Option<Value>, add: Option<Value>)
        requires
            old(self).grids().len() == 27,
            g < 27,
            old(self).grids()[g as int].wf(),
        ensures
            final(self).cells() == old(self).cells(),
            final(self).temps() == old(self).temps(),
            final(self).grids().len() == 27,
            final(self).grids()[g as int].wf(),
            final(self).grid(g as int) == old(self).grid(g as int).difference(
                opt_digits(rem),
            ).union(opt_digits(add)),
            forall|h: int|
                0 <= h < 27 && h != g ==> #[trigger] final(self).grids()[h] == old(
                    self,
                ).grids()[h],
    {
        let mut s = self.grid_values[g];
        if let Some(w) = rem {
            s.remove(&w);
        }
        if let Some(v) = add {
            s.insert(v);
        }
        self.grid_values.set(g, s);
        proof {
            assert(self.grid(g as int) =~= old(self).grid(g as int).difference(
                opt_digits(rem),
            ).union(opt_digits(add)));
        }
    }

    /// Places `value` in cell `(x, y)`, or empties the cell when `value` is `None`.
    /// A digit already present in the cell's column, row or block is refused, and the
    /// board is then left as it was.
    pub fn place_if_valid(&mut self, x: u8, y: u8, value: Option<Value>) -> (r: bool)
        requires
            old(self).wf(),
            x < 9,
            y < 9,
        ensures
            final(self).wf(),
            r == (value is None || !old(self).forbidden(9 * y + x).contains(digit(value->0))),
            r ==> final(self).cells() == old(self).cells().update(9 * y + x, value),
            final(self).temps() == old(self).temps(),
            !r ==> final(self).same_state(old(self)),
    {
        let i = 9 * y as usize + x as usize;
        let original_value = self.cells[i];
        if let Some(val) = value {
            if !self.can_place(x, y, val) {
                return false;
            }
        }
        if original_value.is_none() && value.is_none() {
            proof {
                assert(self.cells() =~= old(self).cells().update(9 * y + x, value));
            }
            return true;
        }
        proof {
            lemma_cell_coords(x as int, y as int);
        }
        let (block_x, block_y) = (x / 3, y / 3);
        self.update_slot(x as usize, original_value, value);
        self.update_slot(9 + y as usize, original_value, value);
        self.update_slot(18 + (3 * block_y + block_x) as usize, original_value, value);
        self.cells.set(i, value);
        proof {
            let b0 = *old(self);
            let b1 = *self;
            let ii = i as int;
            lemma_unit_bounds(ii);
            assert forall|g: int| 0 <= g < 27 implies (#[trigger] b1.grids()[g]).wf() by {
                if !in_grid(ii, g) {
                    assert(b1.grids()[g] == b0.grids()[g]);
                }
            }
            assert forall|g: int| 0 <= g < 27 && in_grid(ii, g) implies #[trigger] b1.grid(g)
                == b0.grid(g).difference(opt_digits(b0.cells()[ii])).union(opt_digits(value)) by {}
            assert forall|g: int| 0 <= g < 27 && !in_grid(ii, g) implies #[trigger] b1.grid(g)
                == b0.grid(g) by {
                assert(b1.grids()[g] == b0.grids()[g]);
            }
            lemma_update_wf(b0, b1, ii, value);
        }
        true
    }
}


impl Redoku {
    /// 81 less the number of digits in the nine block sets; on a board without temporary
    /// entries this is the number of empty cells.
    pub fn empty_cells(&self) -> (r: u8)
        requires
            self.wf(),
        ensures
            r == self.empty_count(),
            r <= 81,
            self.temps().len() == 0 ==> r == empty_set(self.cells()).len(),
    {
        proof {
            if self.temps().len() == 0 {
                lemma_empty_count(*self);
            }
        }
        let mut cells: u8 = 81;
        let mut i: u8 = 0;
        while i < 9
            invariant
                self.wf(),
                i <= 9,
                cells == 81 - block_total(self.grids(), i as int),
                0 <= block_total(self.grids(), i as int) <= 9 * i,
            decreases 9 - i,
        {
            let n = self.grid_values[18 + i as usize].len();
            cells = cells - n;
            i = i + 1;
        }
        cells
    }

    /// Empties every cell and every set, and drops the temporary entries.
    pub fn clear(&mut self)
        ensures
            final(self).wf(),
            forall|i: int| 0 <= i < 81 ==> #[trigger] final(self).cells()[i] is None,
            final(self).temps().len() == 0,
    {
        *self = Redoku::blank(0);
    }

    /// The digits held by row `row`.
    pub fn row_values(&self, row: u8) -> (r: &ValueSet)
        requires
            self.wf(),
            row < 9,
        ensures
            *r == self.grids()[9 + row],
            r.wf(),
    {
        &self.grid_values[9 + row as usize]
    }

    /// The digits held by column `column`.
    pub fn column_values(&self, column: u8) -> (r: &ValueSet)
        requires
            self.wf(),
            column < 9,
        ensures
            *r == self.grids()[column as int],
            r.wf(),
    {
        &self.grid_values[column as usize]
    }

    /// The digits held by block `block` (blocks are numbered row by row).
    pub fn block_values(&self, block: u8) -> (r: &ValueSet)
        requires
            self.wf(),
            block < 9,
        ensures
            *r == self.grids()[18 + block],
            r.wf(),
    {
        &self.grid_values[18 + block as usize]
    }

    /// The digits that cell `(x, y)` cannot take: the union of its column, row and block.
    pub fn calculate_impossible_values(&self, x: u8, y: u8) -> (r: ValueSet)
        requires
            self.wf(),
            x < 9,
            y < 9,
        ensures
            r.wf(),
            r@ == self.forbidden(9 * y + x),
    {
        proof {
            lemma_cell_coords(x as int, y as int);
        }
        let (block_x, block_y) = (x / 3, y / 3);
        self.column_values(x).union(self.row_values(y)).union(
            self.block_values(3 * block_y + block_x),
        )
    }

    /// The digits that cell `(x, y)` can take.
    pub fn calculate_possible_values(&self, x: u8, y: u8) -> (r: ValueSet)
        requires
            self.wf(),
            x < 9,
            y < 9,
        ensures
            r.wf(),
            r@ == all_digits().difference(self.forbidden(9 * y + x)),
    {
        ValueSet::full().difference(&self.calculate_impossible_values(x, y))
    }

    /// Adds `values` to the set of `grid` until the temporary entries are removed. Only the
    /// digits that the set did not hold yet are recorded, so removal restores it exactly.
    pub fn insert_temporary_values(&mut self, grid: Grid, values: ValueSet)
        requires
            old(self).wf(),
            grid.valid(),
            values.wf(),
        ensures
            final(self).wf(),
            final(self).cells() == old(self).cells(),
            final(self).temps().len() == old(self).temps().len() + 1,
            final(self).temps().drop_last() == old(self).temps(),
            final(self).temps().last().0 == grid,
            final(self).grid(grid.slot()) == old(self).grid(grid.slot()).union(values@),
            forall|h: int|
                0 <= h < 27 && h != grid.slot() ==> #[trigger] final(self).grids()[h] == old(
                    self,
                ).grids()[h],
    {
        let g = grid.slot_index();
        let current = self.grid_values[g];
        let added = values.difference(&current);
        let merged = current.union(&added);
        self.grid_values.set(g, merged);
        self.temp_grid_values.push((grid, added));
        proof {
            let b0 = *old(self);
            let b1 = *self;
            let log0 = b0.temps();
            let log1 = b1.temps();
            let gi = g as int;
            assert(log1 == log0.push((grid, added)));
            assert(log1.drop_last() =~= log0);
            assert forall|h: int| 0 <= h < 27 implies #[trigger] b1.grid(h) == derived(
                b1.cells(),
                h,
            ).union(overlay(log1, h)) by {
                assert(b0.grid(h) == derived(b0.cells(), h).union(overlay(log0, h)));
                if h == gi {
                    assert forall|d: nat| overlay(log1, h).contains(d) implies overlay(
                        log0,
                        h,
                    ).union(added@).contains(d) by {
                        let k = choose|k: int|
                            0 <= k < log1.len() && log1[k].0.slot() == h
                                && #[trigger] log1[k].1@.contains(d);
                        if k < log0.len() {
                            assert(log0[k] == log1[k]);
                        }
                    }
                    assert forall|d: nat| overlay(log0, h).union(added@).contains(d) implies overlay(
                        log1,
                        h,
                    ).contains(d) by {
                        if added@.contains(d) {
                            assert(log1[log0.len() as int].1@.contains(d));
                        } else {
                            let k = choose|k: int|
                                0 <= k < log0.len() && log0[k].0.slot() == h
                                    && #[trigger] log0[k].1@.contains(d);
                            assert(log1[k] == log0[k]);
                        }
                    }
                    assert(overlay(log1, h) =~= overlay(log0, h).union(added@));
                    assert(b1.grid(h) =~= derived(b1.cells(), h).union(overlay(log1, h)));
                } else {
                    assert forall|d: nat| overlay(log1, h).contains(d) implies overlay(
                        log0,
                        h,
                    ).contains(d) by {
                        let k = choose|k: int|
                            0 <= k < log1.len() && log1[k].0.slot() == h
                                && #[trigger] log1[k].1@.contains(d);
                        assert(k < log0.len());
                        assert(log0[k] == log1[k]);
                    }
                    assert forall|d: nat| overlay(log0, h).contains(d) implies overlay(
                        log1,
                        h,
                    ).contains(d) by {
                        let k = choose|k: int|
                            0 <= k < log0.len() && log0[k].0.slot() == h
                                && #[trigger] log0[k].1@.contains(d);
                        assert(log1[k] == log0[k]);
                    }
                    assert(overlay(log1, h) =~= overlay(log0, h));
                    assert(b1.grids()[h] == b0.grids()[h]);
                }
            }
            assert forall|k1: int, k2: int|
                0 <= k1 < log1.len() && 0 <= k2 < log1.len() && k1 != k2
                    && (#[trigger] log1[k1]).0.slot() == (#[trigger] log1[k2]).0.slot()
                    implies log1[k1].1@.disjoint(log1[k2].1@) by {
                assert(b0.grid(gi) == derived(b0.cells(), gi).union(overlay(log0, gi)));
                assert(added@ == values@.difference(current@));
                assert(log1[log0.len() as int] == (grid, added));
                if k1 == log0.len() {
                    lemma_overlay_entry(log0, k2);
                    assert(log1[k2] == log0[k2]);
                } else if k2 == log0.len() {
                    lemma_overlay_entry(log0, k1);
                    assert(log1[k1] == log0[k1]);
                } else {
                    assert(log1[k1] == log0[k1] && log1[k2] == log0[k2]);
                }
            }
            assert forall|k: int| 0 <= k < log1.len() implies (#[trigger] log1[k]).0.valid()
                && log1[k].1.wf() by {
                if k < log0.len() {
                    assert(log1[k] == log0[k]);
                }
            }
            assert forall|k: int| 0 <= k < log1.len() implies (#[trigger] log1[k]).1@.disjoint(
                derived(b1.cells(), log1[k].0.slot()),
            ) by {
                if k < log0.len() {
                    assert(log1[k] == log0[k]);
                } else {
                    assert(b0.grid(gi) == derived(b0.cells(), gi).union(overlay(log0, gi)));
                    assert(log1[k].1@ == values@.difference(current@));
                }
            }
            assert forall|g2: int| 0 <= g2 < 27 implies (#[trigger] b1.grids()[g2]).wf() by {
                if g2 != gi {
                    assert(b1.grids()[g2] == b0.grids()[g2]);
                }
            }
            assert(b1.grid(gi) =~= b0.grid(gi).union(values@));
        }
    }

    /// Takes every temporary entry back off its set, the latest first.
    pub fn remove_temporary_values(&mut self)
        requires
            old(self).wf(),
        ensures
            final(self).wf(),
            final(self).cells() == old(self).cells(),
            final(self).temps().len() == 0,
    {
        while self.temp_grid_values.len() > 0
            invariant
                self.wf(),
                self.cells() == old(self).cells(),
            decreases self.temp_grid_values.len(),
        {
            let ghost b0 = *self;
            let popped = self.temp_grid_values.pop();
            let (grid, values) = popped.unwrap();
            proof {
                let last = b0.temps().len() - 1;
                assert(b0.temps()[last] == (grid, values));
                assert(b0.temps()[last].0.valid() && b0.temps()[last].1.wf());
            }
            let g = grid.slot_index();
            let current = self.grid_values[g];
            self.grid_values.set(g, current.difference(&values));
            proof {
                let b1 = *self;
                let log0 = b0.temps();
                let log1 = b1.temps();
                let last = log0.len() - 1;
                let gi = g as int;
                assert(log1 =~= log0.subrange(0, last));
                assert(log0[last] == (grid, values));
                assert forall|k: int| 0 <= k < log1.len() implies #[trigger] log1[k] == log0[k] by {}
                assert forall|h: int| 0 <= h < 27 implies #[trigger] b1.grid(h) == derived(
                    b1.cells(),
                    h,
                ).union(overlay(log1, h)) by {
                    assert(b0.grid(h) == derived(b0.cells(), h).union(overlay(log0, h)));
                    assert forall|d: nat| overlay(log1, h).contains(d) implies overlay(
                        log0,
                        h,
                    ).contains(d) by {
                        let k = choose|k: int|
                            0 <= k < log1.len() && log1[k].0.slot() == h
                                && #[trigger] log1[k].1@.contains(d);
                        assert(log0[k] == log1[k]);
                    }
                    if h == gi {
                        assert forall|d: nat| overlay(log1, h).contains(d) implies !values@.contains(
                            d,
                        ) by {
                            let k = choose|k: int|
                                0 <= k < log1.len() && log1[k].0.slot() == h
                                    && #[trigger] log1[k].1@.contains(d);
                            assert(log0[k] == log1[k]);
                            assert(log0[k].1@.disjoint(log0[last].1@));
                        }
                        assert forall|d: nat|
                            overlay(log0, h).contains(d) && !values@.contains(d) implies overlay(
                                log1,
                                h,
                            ).contains(d) by {
                            let k = choose|k: int|
                                0 <= k < log0.len() && log0[k].0.slot() == h
                                    && #[trigger] log0[k].1@.contains(d);
                            assert(k != last);
                            assert(log1[k] == log0[k]);
                        }
                        assert(log0[last].1@.disjoint(derived(b0.cells(), gi)));
                        assert(b1.grid(h) =~= derived(b1.cells(), h).union(overlay(log1, h)));
                    } else {
                        assert forall|d: nat| overlay(log0, h).contains(d) implies overlay(
                            log1,
                            h,
                        ).contains(d) by {
                            let k = choose|k: int|
                                0 <= k < log0.len() && log0[k].0.slot() == h
                                    && #[trigger] log0[k].1@.contains(d);
                            assert(k != last);
                            assert(log1[k] == log0[k]);
                        }
                        assert(overlay(log1, h) =~= overlay(log0, h));
                        assert(b1.grids()[h] == b0.grids()[h]);
                    }
                }
                assert forall|g2: int| 0 <= g2 < 27 implies (#[trigger] b1.grids()[g2]).wf() by {
                    if g2 != gi {
                        assert(b1.grids()[g2] == b0.grids()[g2]);
                    }
                }
            }
        }
    }

    /// The number of temporary entries.
    pub fn temporary_values(&self) -> (r: usize)
        ensures
            r == self.temps().len(),
    {
        self.temp_grid_values.len()
    }
}


/// Two well-formed boards with the same cells and the same temporary entries hold
/// bit-for-bit the same sets.
pub proof fn lemma_state_determined(a: Redoku, b: Redoku)
    requires
        a.wf(),
        b.wf(),
        a.cells() == b.cells(),
        a.temps() == b.temps(),
    ensures
        a.same_state(&b),
{
    assert forall|g: int| 0 <= g < 27 implies #[trigger] a.grids()[g] == b.grids()[g] by {
        assert(a.grid(g) == b.grid(g));
        a.grids()[g].lemma_ext(&b.grids()[g]);
    }
    assert(a.grids() =~= b.grids());
}

/// Well-formedness depends on the cells, sets and temporary entries alone.
pub proof fn lemma_same_state_wf(a: Redoku, b: Redoku)
    requires
        a.wf(),
        a.same_state(&b),
    ensures
        b.wf(),
{
    assert(a.cells() == b.cells());
    assert(a.grids() == b.grids());
    assert(a.temps() == b.temps());
    assert forall|g: int| 0 <= g < 27 implies #[trigger] b.grid(g) == derived(b.cells(), g).union(
        overlay(b.temps(), g),
    ) by {
        assert(a.grid(g) == b.grid(g));
    }
}

/// Emptying an empty cell changes nothing, and placing a digit in an empty cell and then
/// emptying it again gives back the same cells and bit-for-bit the same sets.
pub proof fn lemma_place_then_clear(
    b0: Redoku,
    b1: Redoku,
    b2: Redoku,
    x: int,
    y: int,
    v: Option<Value>,
)
    requires
        b0.wf(),
        b1.wf(),
        b2.wf(),
        0 <= x < 9,
        0 <= y < 9,
        b0.cells()[9 * y + x] is None,
        b1.cells() == b0.cells().update(9 * y + x, v),
        b1.temps() == b0.temps(),
        b2.cells() == b1.cells().update(9 * y + x, None),
        b2.temps() == b1.temps(),
    ensures
        b2.same_state(&b0),
        v is None ==> b1.same_state(&b0),
{
    assert(b2.cells() =~= b0.cells());
    lemma_state_determined(b2, b0);
    if v is None {
        assert(b1.cells() =~= b0.cells());
        lemma_state_determined(b1, b0);
    }
}

/// The content of a cell written as a token: 0 for an empty cell, 1 to 9 for a digit.
pub open spec fn token_value(t: u8) -> Option<Value> {
    match t {
        1 => Some(Value::One),
        2 => Some(Value::Two),
        3 => Some(Value::Three),
        4 => Some(Value::Four),
        5 => Some(Value::Five),
        6 => Some(Value::Six),
        7 => Some(Value::Seven),
        8 => Some(Value::Eight),
        9 => Some(Value::Nine),
        _ => None,
    }
}

/// The cells that a sequence of 81 tokens describes, row by row.
pub open spec fn literal_cells(tokens: Seq<u8>) -> Seq<Option<Value>> {
    Seq::new(81, |i: int| token_value(tokens[i]))
}

/// Whether `tokens` is a layout of 81 tokens, each 0 to 9.
pub open spec fn literal_shape(tokens: Seq<u8>) -> bool {
    tokens.len() == 81 && forall|i: int| 0 <= i < 81 ==> #[trigger] tokens[i] <= 9
}

fn token_to_value(t: u8) -> (r: Option<Value>)
    requires
        t <= 9,
    ensures
        r == token_value(t),
        r matches Some(v) ==> digit(v) == t - 1,
{
    if t == 0 {
        None
    } else {
        Some(Value::from_u8(t - 1))
    }
}

fn same_cell(a: Option<Value>, b: Option<Value>) -> (r: bool)
    ensures
        r == (a == b),
{
    match (a, b) {
        (None, None) => true,
        (Some(v), Some(w)) => v == w,
        _ => false,
    }
}

impl Redoku {
    /// Builds a board from 81 tokens read row by row, 0 standing for an empty cell and 1 to
    /// 9 for a digit. Gives `None` when the layout has another length, holds a token above
    /// 9, or repeats a digit in a row, column or block.
    pub fn from_literal(tokens: &Vec<u8>) -> (r: Option<Redoku>)
        ensures
            r is Some <==> literal_shape(tokens@) && consistent(literal_cells(tokens@)),
            r matches Some(b) ==> b.wf() && b.cells() == literal_cells(tokens@) && b.temps().len()
                == 0,
    {
        if tokens.len() != 81 {
            return None;
        }
        let mut k: usize = 0;
        while k < 81
            invariant
                tokens@.len() == 81,
                k <= 81,
                forall|i: int| 0 <= i < k ==> #[trigger] tokens@[i] <= 9,
            decreases 81 - k,
        {
            if tokens[k] > 9 {
                return None;
            }
            k = k + 1;
        }
        let ghost lit = literal_cells(tokens@);
        let mut redoku = Redoku::new();
        let mut i: usize = 0;
        while i < 81
            invariant
                literal_shape(tokens@),
                lit == literal_cells(tokens@),
                i <= 81,
                redoku.wf(),
                redoku.temps().len() == 0,
                forall|j: int| 0 <= j < i ==> #[trigger] redoku.cells()[j] == lit[j],
                forall|j: int| i <= j < 81 ==> #[trigger] redoku.cells()[j] is None,
            decreases 81 - i,
        {
            let value = token_to_value(tokens[i]);
            let x = (i % 9) as u8;
            let y = (i / 9) as u8;
            proof {
                lemma_unit_bounds(i as int);
            }
            if !redoku.place_if_valid(x, y, value) {
                proof {
                    let ii = i as int;
                    let d = digit(value->0);
                    let c = redoku.cells();
                    lemma_in_grid_same_unit(ii, ii, 0);
                    let g = if redoku.grid(col_of(ii)).contains(d) {
                        col_of(ii)
                    } else if redoku.grid(9 + row_of(ii)).contains(d) {
                        9 + row_of(ii)
                    } else {
                        18 + block_of(ii)
                    };
                    assert(redoku.grid(g) == derived(c, g).union(overlay(redoku.temps(), g)));
                    assert(overlay(redoku.temps(), g) =~= Set::<nat>::empty());
                    let j = choose|j: int| 0 <= j < 81 && in_grid(j, g) && #[trigger] holds(c, j, d);
                    lemma_in_grid_same_unit(ii, j, g);
                    lemma_digit_injective(c[j]->0, value->0);
                    assert(lit[j] == lit[ii] && j != ii && same_unit(ii, j));
                    assert(lit[j] is Some && lit[ii] is Some);
                }
                return None;
            }
            i = i + 1;
        }
        proof {
            assert(redoku.cells() =~= lit);
        }
        Some(redoku)
    }
}

impl Redoku {
    /// A deep copy of the board, sets and temporary entries included.
    pub fn duplicate(&self) -> (r: Redoku)
        ensures
            r.same_state(self),
    {
        Redoku {
            cells: copy_vec(&self.cells),
            grid_values: copy_vec(&self.grid_values),
            temp_grid_values: copy_vec(&self.temp_grid_values),
        }
    }
}

/// Reading back the cells of a board built from a literal gives the literal: a digit token
/// gives that digit and the placeholder gives an empty cell.
pub proof fn lemma_literal_round_trip(tokens: Seq<u8>, b: Redoku, x: int, y: int)
    requires
        literal_shape(tokens),
        b.cells() == literal_cells(tokens),
        0 <= x < 9,
        0 <= y < 9,
    ensures
        b.cells()[9 * y + x] == token_value(tokens[9 * y + x]),
        tokens[9 * y + x] == 0 ==> b.cells()[9 * y + x] is None,
        1 <= tokens[9 * y + x] <= 9 ==> (b.cells()[9 * y + x] matches Some(v) && digit(v) + 1
            == tokens[9 * y + x]),
{
    lemma_cell_coords(x, y);
}

impl Clone for Redoku {
    fn clone(&self) -> (r: Self)
        ensures
            r.same_state(self),
    {
        self.duplicate()
    }
}

impl PartialEq for Redoku {
    fn eq(&self, other: &Redoku) -> (r: bool) {
        if self.cells.len() != other.cells.len() || self.grid_values.len()
            != other.grid_values.len() {
            return false;
        }
        let mut i: usize = 0;
        while i < self.cells.len()
            invariant
                self.cells@.len() == other.cells@.len(),
                i <= self.cells@.len(),
                forall|j: int| 0 <= j < i ==> #[trigger] self.cells@[j] == other.cells@[j],
            decreases self.cells@.len() - i,
        {
            if !same_cell(self.cells[i], other.cells[i]) {
                return false;
            }
            i = i + 1;
        }
        let mut g: usize = 0;
        while g < self.grid_values.len()
            invariant
                self.grid_values@.len() == other.grid_values@.len(),
                g <= self.grid_values@.len(),
                forall|j: int| 0 <= j < g ==> #[trigger] self.grid_values@[j] == other.grid_values@[j],
            decreases self.grid_values@.len() - g,
        {
            if self.grid_values[g] != other.grid_values[g] {
                return false;
            }
            g = g + 1;
        }
        proof {
            assert(self.cells@ =~= other.cells@);
            assert(self.grid_values@ =~= other.grid_values@);
        }
        true
    }
}

impl vstd::std_specs::cmp::PartialEqSpecImpl for Redoku {
    open spec fn obeys_eq_spec() -> bool {
        true
    }

    open spec fn eq_spec(&self, other: &Redoku) -> bool {
        self.cells() == other.cells() && self.grids() == other.grids()
    }
}


/// On a board without temporary entries, the digit just taken out of a cell may go back.
pub proof fn lemma_refill(b0: Redoku, b1: Redoku, i: int)
    requires
        b0.wf(),
        b1.wf(),
        0 <= i < 81,
        b0.temps().len() == 0,
        b1.temps() == b0.temps(),
        b0.cells()[i] is Some,
        b1.cells() == b0.cells().update(i, None),
    ensures
        !b1.forbidden(i).contains(digit(b0.cells()[i]->0)),
{
    let d = digit(b0.cells()[i]->0);
    let c1 = b1.cells();
    lemma_in_grid_same_unit(i, i, 0);
    lemma_unit_bounds(i);
    if b1.forbidden(i).contains(d) {
        let g = if b1.grid(col_of(i)).contains(d) {
            col_of(i)
        } else if b1.grid(9 + row_of(i)).contains(d) {
            9 + row_of(i)
        } else {
            18 + block_of(i)
        };
        assert(b1.grid(g) == derived(c1, g).union(overlay(b1.temps(), g)));
        assert(overlay(b1.temps(), g) =~= Set::<nat>::empty());
        let j = choose|j: int| 0 <= j < 81 && in_grid(j, g) && #[trigger] holds(c1, j, d);
        assert(j != i);
        assert(b0.cells()[j] == c1[j]);
        lemma_in_grid_same_unit(i, j, g);
        lemma_digit_injective(b0.cells()[i]->0, b0.cells()[j]->0);
        assert(b0.cells()[i] is Some && b0.cells()[j] is Some);
    }
}


/// The empty cells of `cells`.
pub open spec fn empty_set(cells: Seq<Option<Value>>) -> Set<int> {
    Set::new(|i: int| 0 <= i < 81 && cells[i] is None)
}

/// The filled cells of `cells` in blocks below `n`.
spec fn filled_below(cells: Seq<Option<Value>>, n: int) -> Set<int> {
    Set::new(|i: int| 0 <= i < 81 && block_of(i) < n && cells[i] is Some)
}

/// The filled cells of block `b`.
spec fn filled_in_block(cells: Seq<Option<Value>>, b: int) -> Set<int> {
    Set::new(|i: int| 0 <= i < 81 && block_of(i) == b && cells[i] is Some)
}

pub proof fn lemma_cells_finite(s: Set<int>)
    requires
        forall|i: int| s.contains(i) ==> 0 <= i < 81,
    ensures
        s.finite(),
        s.len() <= 81,
{
    vstd::set_lib::lemma_int_range(0, 81);
    assert(s.subset_of(vstd::set_lib::set_int_range(0, 81)));
    vstd::set_lib::lemma_len_subset(s, vstd::set_lib::set_int_range(0, 81));
}

/// A block holds as many digits as it has filled cells.
proof fn lemma_block_digits(cells: Seq<Option<Value>>, b: int)
    requires
        cells.len() == 81,
        consistent(cells),
        0 <= b < 9,
    ensures
        derived(cells, 18 + b).len() == filled_in_block(cells, b).len(),
        derived(cells, 18 + b).finite(),
{
    let s = filled_in_block(cells, b);
    let f = |i: int| digit(cells[i]->0);
    lemma_cells_finite(s);
    assert forall|i: int, j: int| s.contains(i) && s.contains(j) && #[trigger] f(i) == #[trigger] f(
        j,
    ) implies i == j by {
        if i != j {
            lemma_unit_bounds(i);
            lemma_unit_bounds(j);
            assert(same_unit(i, j));
            lemma_digit_injective(cells[i]->0, cells[j]->0);
        }
    }
    assert forall|d: nat| derived(cells, 18 + b).contains(d) implies s.map(f).contains(d) by {
        let i = choose|i: int| 0 <= i < 81 && in_grid(i, 18 + b) && #[trigger] holds(cells, i, d);
        lemma_unit_bounds(i);
        assert(s.contains(i) && f(i) == d);
    }
    assert forall|d: nat| s.map(f).contains(d) implies derived(cells, 18 + b).contains(d) by {
        let i = choose|i: int| s.contains(i) && f(i) == d;
        lemma_unit_bounds(i);
        assert(holds(cells, i, d));
    }
    assert(s.map(f) =~= derived(cells, 18 + b));
    vstd::set_lib::lemma_map_size(s, derived(cells, 18 + b), f);
}

proof fn lemma_block_total(b: Redoku, n: int)
    requires
        b.wf(),
        b.temps().len() == 0,
        0 <= n <= 9,
    ensures
        block_total(b.grids(), n) == filled_below(b.cells(), n).len(),
        filled_below(b.cells(), n).finite(),
    decreases n,
{
    let cells = b.cells();
    if n == 0 {
        assert(filled_below(cells, 0) =~= Set::<int>::empty());
    } else {
        lemma_block_total(b, n - 1);
        lemma_block_digits(cells, n - 1);
        assert(overlay(b.temps(), 18 + n - 1) =~= Set::<nat>::empty());
        assert(b.grid(18 + n - 1) == derived(cells, 18 + n - 1).union(
            overlay(b.temps(), 18 + n - 1),
        ));
        assert(b.grid(18 + n - 1) =~= derived(cells, 18 + n - 1));
        let lower = filled_below(cells, n - 1);
        let here = filled_in_block(cells, n - 1);
        lemma_cells_finite(here);
        assert forall|i: int| filled_below(cells, n).contains(i) implies lower.union(here).contains(
            i,
        ) by {
            lemma_unit_bounds(i);
        }
        assert(filled_below(cells, n) =~= lower.union(here));
        assert(lower.disjoint(here));
        vstd::set_lib::lemma_set_disjoint_lens(lower, here);
    }
}

/// On a board without temporary entries, the count the board keeps is the number of empty
/// cells.
pub proof fn lemma_empty_count(b: Redoku)
    requires
        b.wf(),
        b.temps().len() == 0,
    ensures
        b.empty_count() == empty_set(b.cells()).len(),
        empty_set(b.cells()).finite(),
{
    let cells = b.cells();
    lemma_block_total(b, 9);
    let filled = filled_below(cells, 9);
    let empty = empty_set(cells);
    lemma_cells_finite(empty);
    vstd::set_lib::lemma_int_range(0, 81);
    assert forall|i: int| vstd::set_lib::set_int_range(0, 81).contains(i) implies filled.union(
        empty,
    ).contains(i) by {
        lemma_unit_bounds(i);
    }
    assert(filled.union(empty) =~= vstd::set_lib::set_int_range(0, 81));
    assert(filled.disjoint(empty));
    vstd::set_lib::lemma_set_disjoint_lens(filled, empty);
}

/// Emptying a filled cell of a board without temporary entries takes its digit out of the
/// cell's column, row and block and leaves every other set as it was.
pub proof fn lemma_clear_slots(b0: Redoku, b1: Redoku, i: int)
    requires
        b0.wf(),
        b1.wf(),
        0 <= i < 81,
        b0.temps().len() == 0,
        b1.temps() == b0.temps(),
        b0.cells()[i] is Some,
        b1.cells() == b0.cells().update(i, None),
    ensures
        forall|g: int|
            0 <= g < 27 && in_grid(i, g) ==> #[trigger] b1.grid(g).len() + 1 == b0.grid(g).len(),
        forall|g: int| 0 <= g < 27 && !in_grid(i, g) ==> #[trigger] b1.grid(g) == b0.grid(g),
{
    let w = digit(b0.cells()[i]->0);
    assert forall|g: int| 0 <= g < 27 implies #[trigger] b1.grid(g) == (if in_grid(i, g) {
        b0.grid(g).remove(w)
    } else {
        b0.grid(g)
    }) && (in_grid(i, g) ==> b1.grid(g).len() + 1 == b0.grid(g).len()) by {
        lemma_derived_update(b0.cells(), i, None, g);
        assert(overlay(b0.temps(), g) =~= Set::<nat>::empty());
        assert(b0.grid(g) =~= derived(b0.cells(), g));
        assert(b1.grid(g) =~= derived(b1.cells(), g));
        if in_grid(i, g) {
            assert(holds(b0.cells(), i, w));
            assert(b0.grid(g).contains(w));
            assert(opt_digits(None) =~= Set::<nat>::empty());
            assert(b1.grid(g) =~= b0.grid(g).remove(w));
            b0.grids()[g].lemma_wf();
        }
    }
}

/// On a filled board every column, row and block holds all nine digits.
pub proof fn lemma_full_slot(b: Redoku, g: int)
    requires
        b.wf(),
        full(b.cells()),
        0 <= g < 27,
    ensures
        b.grid(g).len() == 9,
{
    let c = b.cells();
    assert(b.grid(g) == derived(c, g).union(overlay(b.temps(), g)));
    assert forall|d: nat| all_digits().contains(d) implies b.grid(g).contains(d) by {
        crate::solver::lemma_solved_units(c, g, d);
        let j = choose|j: int| 0 <= j < 81 && in_grid(j, g) && #[trigger] holds(c, j, d);
        assert(derived(c, g).contains(d));
    }
    b.grids()[g].lemma_wf();
    assert(b.grid(g) =~= all_digits());
    crate::value::lemma_digit_set_bounds(b.grid(g));
}

/// Filling more cells leaves fewer empty ones.
pub proof fn lemma_fill_shrinks_empty(a: Seq<Option<Value>>, b: Seq<Option<Value>>)
    requires
        a.len() == 81,
        b.len() == 81,
        forall|i: int| 0 <= i < 81 && (#[trigger] a[i]) is Some ==> b[i] == a[i],
        a != b,
    ensures
        empty_set(b).len() < empty_set(a).len(),
        empty_set(a).finite(),
{
    lemma_cells_finite(empty_set(a));
    lemma_cells_finite(empty_set(b));
    if forall|i: int| 0 <= i < 81 ==> a[i] == b[i] {
        assert(a =~= b);
    }
    let i = choose|i: int| 0 <= i < 81 && a[i] != b[i];
    assert(empty_set(b).subset_of(empty_set(a)));
    empty_set(b).lemma_subset_not_in_lt(empty_set(a), i);
}

/// A grid with no empty cell is full.
pub proof fn lemma_no_empty_full(a: Seq<Option<Value>>)
    requires
        a.len() == 81,
        empty_set(a).len() == 0,
    ensures
        full(a),
{
    lemma_cells_finite(empty_set(a));
    assert forall|i: int| 0 <= i < 81 implies #[trigger] a[i] is Some by {
        if a[i] is None {
            assert(empty_set(a).contains(i));
        }
    }
}

} // verus!
