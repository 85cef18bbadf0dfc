use vstd::prelude::*;

use crate::grader::Difficulty;
use crate::redoku::{
    empty_set, full, in_grid, lemma_cell_coords, lemma_clear_slots, lemma_empty_count,
    lemma_full_slot, lemma_refill, lemma_state_determined, lemma_unit_bounds, solved, Redoku,
};
use crate::solver::{
    extends, is_completion, lemma_completion_is_solution, lemma_fewer_digits_not_unique,
    lemma_full_board, lemma_same_state_completions, lemma_unique_completion_cells,
    unique_completion, unique_solution_of, RedokuSolver,
};
use crate::value::{digit, Value};

verus! {

/// A source of random bytes, such as a seeded pseudo-random generator.
pub trait RandomSource {
    /// The next byte.
    fn read_u8(&mut self) -> u8;
}

/// How many bytes a draw in a range may reject before it gives up.
const DRAW_ATTEMPTS: u8 = 64;

/// What byte `val` draws in `low..high`: the bytes below the largest multiple of the range
/// that fits in 255 map onto the range by their remainder, each value of the range taking
/// equally many; the bytes above are rejected.
pub open spec fn byte_draw(val: u8, low: u8, high: u8) -> Option<u8> {
    let range = high as int - low as int;
    if (val as int) < 255int - 255int % range {
        Some((low as int + val as int % range) as u8)
    } else {
        None
    }
}

/// The value byte `val` draws in `low..high`, or `None` when the byte is rejected.
pub fn byte_in_range(val: u8, low: u8, high: u8) -> (r: Option<u8>)
    requires
        low < high,
    ensures
        r == byte_draw(val, low, high),
        r matches Some(v) ==> low <= v < high,
{
    let range = high - low;
    let zone = 255 - 255 % range;
    if val < zone {
        Some(low + val % range)
    } else {
        None
    }
}

/// A byte in `low..high`, drawn by rejection so that every value is equally likely; a range
/// of one value needs no draw. `None` when the source gave only rejected bytes for a bounded
/// number of draws.
pub fn read_u8_in_range<R: RandomSource>(rand: &mut R, low: u8, high: u8) -> (r: Option<u8>)
    requires
        low < high,
    ensures
        r matches Some(v) ==> low <= v < high,
        high == low + 1 ==> r == Some(low),
{
    if high - low == 1 {
        return Some(low);
    }
    let mut attempts: u8 = 0;
    while attempts < DRAW_ATTEMPTS
        invariant
            low < high,
        decreases DRAW_ATTEMPTS - attempts,
    {
        attempts = attempts + 1;
        let val = rand.read_u8();
        if let Some(v) = byte_in_range(val, low, high) {
            return Some(v);
        }
    }
    None
}

/// A digit drawn uniformly, or `None` when the draw gave up.
pub fn random_cell_value<R: RandomSource>(rand: &mut R) -> (r: Option<Value>)
    ensures
        r matches Some(v) ==> digit(v) < 9,
{
    match read_u8_in_range(rand, 0, 9) {
        Some(v) => Some(Value::from_u8(v)),
        None => None,
    }
}

/// The bit positions 0 to 8 in a random order (a Fisher-Yates shuffle), or `None` when a
/// draw gave up.
pub fn shuffle_value_range<R: RandomSource>(rand: &mut R) -> (r: Option<Vec<u8>>)
    ensures
        r matches Some(v) ==> {
            &&& v@.len() == 9
            &&& forall|k: u8| k < 9 ==> v@.contains(k)
            &&& forall|a: int, b: int| 0 <= a < b < 9 ==> v@[a] != v@[b]
        },
{
    let mut values: Vec<u8> = Vec::new();
    let mut k: u8 = 0;
    while k < 9
        invariant
            k <= 9,
            values@.len() == k,
            forall|j: int| 0 <= j < k ==> #[trigger] values@[j] == j,
        decreases 9 - k,
    {
        values.push(k);
        k = k + 1;
    }
    proof {
        assert forall|k: u8| k < 9 implies values@.contains(k) by {
            assert(values@[k as int] == k);
        }
    }
    let mut i: u8 = 9;
    while i > 1
        invariant
            1 <= i <= 9,
            values@.len() == 9,
            forall|k: u8| k < 9 ==> values@.contains(k),
            forall|a: int, b: int| 0 <= a < b < 9 ==> values@[a] != values@[b],
        decreases i,
    {
        i = i - 1;
        let j = match read_u8_in_range(rand, 0, i) {
            Some(j) => j,
            None => {
                return None;
            },
        };
        let ghost before = values@;
        let a = values[i as usize];
        let b = values[j as usize];
        values.set(i as usize, b);
        values.set(j as usize, a);
        proof {
            assert forall|k: u8| k < 9 implies values@.contains(k) by {
                assert(before.contains(k));
                let m = choose|m: int| 0 <= m < 9 && before[m] == k;
                if m == i {
                    assert(values@[j as int] == k);
                } else if m == j {
                    assert(values@[i as int] == k);
                } else {
                    assert(values@[m] == k);
                }
            }
        }
    }
    Some(values)
}

/// The order in which a generator visits cells.
pub struct Sequence {
    difficulty: Difficulty,
    index: u8,
}

/// Cell `k` (0 to 80) of the fixed path of a difficulty, as `(x, y)`. `Medium` first takes
/// every other cell of each row, starting at the left on even rows and at the right on odd
/// ones, then comes back for the cells it jumped over; `Hard` snakes along the rows, left
/// to right on even rows and right to left on odd ones; `Evil` reads the rows left to right.
pub open spec fn path_cell(difficulty: Difficulty, k: int) -> (int, int) {
    match difficulty {
        Difficulty::Medium => {
            if k < 41 {
                if k % 9 < 5 {
                    (2 * (k % 9), 2 * (k / 9))
                } else {
                    (7 - 2 * (k % 9 - 5), 2 * (k / 9) + 1)
                }
            } else {
                let j = k - 41;
                if j % 9 < 4 {
                    (2 * (j % 9) + 1, 2 * (j / 9))
                } else {
                    (8 - 2 * (j % 9 - 4), 2 * (j / 9) + 1)
                }
            }
        },
        Difficulty::Hard => {
            if (k / 9) % 2 == 0 {
                (k % 9, k / 9)
            } else {
                (8 - k % 9, k / 9)
            }
        },
        _ => (k % 9, k / 9),
    }
}

/// Whether a difficulty visits cells at random rather than along a fixed path.
pub open spec fn random_order(difficulty: Difficulty) -> bool {
    difficulty == Difficulty::VeryEasy || difficulty == Difficulty::Easy
}

impl Sequence {
    /// How many cells of its path the sequence has given.
    pub closed spec fn steps(&self) -> int {
        self.index as int
    }

    pub closed spec fn kind(&self) -> Difficulty {
        self.difficulty
    }

    /// A sequence at the start of its path.
    pub fn new(difficulty: Difficulty) -> (r: Sequence)
        ensures
            r.steps() == 0,
            r.kind() == difficulty,
    {
        Sequence { difficulty, index: 0 }
    }

    /// The next cell to visit: a random one for the two easiest difficulties, whose sequence
    /// ends only when a draw gives up, else the next of the 81 cells of the difficulty's
    /// path.
    pub fn next<R: RandomSource>(&mut self, rand: &mut R) -> (r: Option<(u8, u8)>)
        requires
            old(self).steps() <= 81,
        ensures
            final(self).kind() == old(self).kind(),
            final(self).steps() <= 81,
            r matches Some((x, y)) ==> x < 9 && y < 9,
            random_order(old(self).kind()) ==> final(self).steps() == old(self).steps(),
            !random_order(old(self).kind()) ==> {
                &&& old(self).steps() == 81 ==> r is None && final(self).steps() == 81
                &&& old(self).steps() < 81 ==> (r matches Some((x, y)) && (x as int, y as int)
                    == path_cell(old(self).kind(), old(self).steps()) && final(self).steps()
                    == old(self).steps() + 1)
            },
    {
        match self.difficulty {
            Difficulty::VeryEasy | Difficulty::Easy => {
                match (read_u8_in_range(rand, 0, 9), read_u8_in_range(rand, 0, 9)) {
                    (Some(x), Some(y)) => Some((x, y)),
                    _ => None,
                }
            },
            _ => {
                if self.index >= 81 {
                    return None;
                }
                let k = self.index;
                let cell = match self.difficulty {
                    Difficulty::Medium => {
                        if k < 41 {
                            if k % 9 < 5 {
                                (2 * (k % 9), 2 * (k / 9))
                            } else {
                                (7 - 2 * (k % 9 - 5), 2 * (k / 9) + 1)
                            }
                        } else {
                            let j = k - 41;
                            if j % 9 < 4 {
                                (2 * (j % 9) + 1, 2 * (j / 9))
                            } else {
                                (8 - 2 * (j % 9 - 4), 2 * (j / 9) + 1)
                            }
                        }
                    },
                    Difficulty::Hard => {
                        if (k / 9) % 2 == 0 {
                            (k % 9, k / 9)
                        } else {
                            (8 - k % 9, k / 9)
                        }
                    },
                    _ => (k % 9, k / 9),
                };
                self.index = k + 1;
                Some(cell)
            },
        }
    }
}

/// How many times a terminal pattern is seeded afresh before generation gives up.
const PATTERN_ATTEMPTS: u32 = 100;

/// How many random cells a seeding may draw.
const SEED_DRAWS: u32 = 1000;

/// How many random digits are tried in one seeded cell.
const VALUE_ATTEMPTS: u8 = 64;

/// How many cells a terminal pattern is seeded with before it is completed.
const SEED_CELLS: u8 = 11;

/// How many cells the hole digging may visit.
const DIG_VISITS: u32 = 4096;

/// Fills `redoku` with a random solved grid: it seeds eleven random cells with random legal
/// digits, completes them with the first solution the search finds, and starts over when
/// there is none. Returns false when every attempt failed.
fn build_terminal_pattern<R: RandomSource>(redoku: &mut Redoku, rand: &mut R) -> (r: bool)
    requires
        old(redoku).wf(),
    ensures
        final(redoku).wf(),
        r ==> full(final(redoku).cells()) && final(redoku).temps().len() == 0,
{
    let mut attempt: u32 = 0;
    while attempt < PATTERN_ATTEMPTS
        invariant
            redoku.wf(),
        decreases PATTERN_ATTEMPTS - attempt,
    {
        attempt = attempt + 1;
        redoku.clear();
        let mut filled_cells: u8 = 0;
        let mut draws: u32 = 0;
        while filled_cells < SEED_CELLS && draws < SEED_DRAWS
            invariant
                redoku.wf(),
                redoku.temps().len() == 0,
                filled_cells <= SEED_CELLS,
            decreases SEED_DRAWS - draws,
        {
            draws = draws + 1;
            let (x, y) = match (read_u8_in_range(rand, 0, 9), read_u8_in_range(rand, 0, 9)) {
                (Some(x), Some(y)) => (x, y),
                _ => {
                    continue;
                },
            };
            if redoku.get(x, y).is_some() {
                continue;
            }
            let mut placed = false;
            let mut tries: u8 = 0;
            while tries < VALUE_ATTEMPTS && !placed
                invariant
                    x < 9,
                    y < 9,
                    redoku.wf(),
                    redoku.temps().len() == 0,
                decreases VALUE_ATTEMPTS - tries,
            {
                tries = tries + 1;
                if let Some(value) = random_cell_value(rand) {
                    placed = redoku.place_if_valid(x, y, Some(value));
                }
            }
            if placed {
                filled_cells = filled_cells + 1;
            }
        }
        if let Some((solution, _)) = redoku.find_solution(false) {
            *redoku = solution;
            return true;
        }
    }
    false
}

/// The range of givens, low inclusive and high exclusive, and the fewest givens a row or
/// column may keep, for each difficulty.
pub open spec fn targets(difficulty: Difficulty) -> (u8, u8, u8) {
    match difficulty {
        Difficulty::VeryEasy => (50u8, 61u8, 5u8),
        Difficulty::Easy => (36u8, 50u8, 4u8),
        Difficulty::Medium => (32u8, 36u8, 3u8),
        Difficulty::Hard => (28u8, 32u8, 2u8),
        Difficulty::Evil => (22u8, 28u8, 0u8),
    }
}

fn difficulty_targets(difficulty: Difficulty) -> (r: (u8, u8, u8))
    ensures
        r == targets(difficulty),
{
    match difficulty {
        Difficulty::VeryEasy => (50, 61, 5),
        Difficulty::Easy => (36, 50, 4),
        Difficulty::Medium => (32, 36, 3),
        Difficulty::Hard => (28, 32, 2),
        Difficulty::Evil => (22, 28, 0),
    }
}

/// Why a cell of `order` may still hold a digit after digging: its row or its column holds
/// no more than `floor` digits, or emptying it would leave more than one solution.
pub open spec fn kept_for_cause(b: Redoku, cell: (u8, u8), floor: u8) -> bool {
    let i = 9 * cell.1 + cell.0;
    b.cells()[i] is Some ==> (b.grid(9 + cell.1).len() <= floor || b.grid(cell.0 as int).len()
        <= floor || !unique_solution_of(b.cells().update(i, None)))
}

/// Empties the cells of `order` in turn until the board holds `total_givens` givens. A cell
/// already empty is passed over, as is one whose row or column holds no more than `floor`
/// digits; a digit whose removal would leave more than one completion is put back. Returns
/// whether the number of givens was reached; when it was not, every cell of `order` still
/// filled was kept for one of those causes.
pub fn dig_holes(redoku: &mut Redoku, order: &Vec<(u8, u8)>, total_givens: u8, floor: u8) -> (reached: bool)
    requires
        old(redoku).wf(),
        old(redoku).temps().len() == 0,
        unique_completion(*old(redoku)),
        forall|k: int| 0 <= k < order@.len() ==> (#[trigger] order@[k]).0 < 9 && order@[k].1 < 9,
        81 - old(redoku).empty_count() >= total_givens,
    ensures
        final(redoku).wf(),
        final(redoku).temps().len() == 0,
        unique_completion(*final(redoku)),
        extends(final(redoku).cells(), old(redoku).cells()),
        final(redoku).empty_count() == empty_set(final(redoku).cells()).len(),
        81 - final(redoku).empty_count() >= total_givens,
        reached == (81 - final(redoku).empty_count() == total_givens),
        forall|g: int|
            0 <= g < 18 ==> #[trigger] final(redoku).grid(g).len() >= floor || final(redoku).grid(
                g,
            ).len() == old(redoku).grid(g).len(),
        !reached ==> forall|m: int|
            0 <= m < order@.len() ==> #[trigger] kept_for_cause(*final(redoku), order@[m], floor),
{
    let mut k: usize = 0;
    while k < order.len()
        invariant
            k <= order@.len(),
            forall|m: int| 0 <= m < order@.len() ==> (#[trigger] order@[m]).0 < 9 && order@[m].1 < 9,
            redoku.wf(),
            old(redoku).wf(),
            redoku.temps().len() == 0,
            unique_completion(*redoku),
            extends(redoku.cells(), old(redoku).cells()),
            81 - redoku.empty_count() >= total_givens,
            forall|g: int|
                0 <= g < 18 ==> #[trigger] redoku.grid(g).len() >= floor || redoku.grid(g).len()
                    == old(redoku).grid(g).len(),
            forall|m: int| 0 <= m < k ==> #[trigger] kept_for_cause(*redoku, order@[m], floor),
        ensures
            81 - redoku.empty_count() == total_givens || k == order@.len(),
        decreases order@.len() - k,
    {
        let (x, y) = order[k];
        if 81 - redoku.empty_cells() == total_givens {
            break;
        }
        k = k + 1;
        let ghost i = 9 * y + x;
        proof {
            lemma_cell_coords(x as int, y as int);
        }
        let original_value = redoku.get(x, y);
        if original_value.is_none() {
            continue;
        }
        if redoku.row_values(y).len() <= floor {
            continue;
        }
        if redoku.column_values(x).len() <= floor {
            continue;
        }
        let ghost b0 = *redoku;
        redoku.place_if_valid(x, y, None);
        proof {
            lemma_empty_count(b0);
            lemma_empty_count(*redoku);
            assert(empty_set(redoku.cells()) =~= empty_set(b0.cells()).insert(i));
            lemma_clear_slots(b0, *redoku, i);
            lemma_unit_bounds(i);
            assert forall|g: int| 0 <= g < 18 implies #[trigger] redoku.grid(g).len() >= floor
                || redoku.grid(g).len() == old(redoku).grid(g).len() by {
                if in_grid(i, g) {
                    assert(g == x || g == 9 + y);
                    assert(b0.grid(g).len() > floor);
                } else {
                    assert(redoku.grid(g) == b0.grid(g));
                }
            }
        }
        if !redoku.has_solution(true) {
            let ghost b1 = *redoku;
            proof {
                lemma_refill(b0, b1, i);
                lemma_unique_completion_cells(b1);
            }
            redoku.place_if_valid(x, y, original_value);
            proof {
                assert(redoku.cells() =~= b0.cells());
                lemma_state_determined(*redoku, b0);
                lemma_same_state_completions(*redoku, b0);
                assert forall|g: int| 0 <= g < 18 implies #[trigger] redoku.grid(g).len() >= floor
                    || redoku.grid(g).len() == old(redoku).grid(g).len() by {
                    assert(redoku.grid(g) == b0.grid(g));
                }
                assert(redoku.cells().update(i, None) =~= b1.cells());
                assert forall|m: int| 0 <= m < k implies #[trigger] kept_for_cause(
                    *redoku,
                    order@[m],
                    floor,
                ) by {
                    if m < k - 1 {
                        assert(kept_for_cause(b0, order@[m], floor));
                        assert(redoku.grid(9 + order@[m].1) == b0.grid(9 + order@[m].1));
                        assert(redoku.grid(order@[m].0 as int) == b0.grid(order@[m].0 as int));
                    }
                }
            }
        } else {
            proof {
                let t = choose|t: Seq<Option<Value>>|
                    is_completion(b0, t) && forall|u: Seq<Option<Value>>|
                        is_completion(b0, u) ==> u == t;
                lemma_completion_is_solution(b0, t);
                assert forall|m: int| 0 <= m < k implies #[trigger] kept_for_cause(
                    *redoku,
                    order@[m],
                    floor,
                ) by {
                    let cell = order@[m];
                    let im = 9 * cell.1 + cell.0;
                    lemma_cell_coords(cell.0 as int, cell.1 as int);
                    if m < k - 1 && redoku.cells()[im] is Some {
                        assert(im != i);
                        assert(kept_for_cause(b0, cell, floor));
                        let gr = 9 + cell.1;
                        let gc = cell.0 as int;
                        if in_grid(i, gr) {
                            assert(redoku.grid(gr).len() + 1 == b0.grid(gr).len());
                        } else {
                            assert(redoku.grid(gr) == b0.grid(gr));
                        }
                        if in_grid(i, gc) {
                            assert(redoku.grid(gc).len() + 1 == b0.grid(gc).len());
                        } else {
                            assert(redoku.grid(gc) == b0.grid(gc));
                        }
                        if !unique_solution_of(b0.cells().update(im, None)) {
                            let c1 = b0.cells().update(im, None);
                            let c2 = redoku.cells().update(im, None);
                            assert forall|j: int| 0 <= j < 81 && (#[trigger] c1[j]) is Some implies t[j]
                                == c1[j] by {}
                            assert forall|j: int| 0 <= j < 81 && (#[trigger] c2[j]) is Some implies c1[j]
                                == c2[j] by {}
                            lemma_fewer_digits_not_unique(c1, c2);
                        }
                    }
                }
            }
        }
    }
    proof {
        lemma_empty_count(*redoku);
    }
    81 - redoku.empty_cells() == total_givens
}

/// Building puzzles of a chosen difficulty.
pub trait RedokuBuilder: Sized {
    /// A puzzle of `difficulty` and whether it reached the number of givens it aimed for;
    /// `None` when no solved grid could be made to start from.
    fn build<R: RandomSource>(difficulty: Difficulty, rand: &mut R) -> Option<(Self, bool)>;
}

impl RedokuBuilder for Redoku {
    /// Makes a solved grid, draws a number of givens in the difficulty's range and an order
    /// of cells, then digs holes in that order. The puzzle keeps the digits of the solved
    /// grid it was dug from, has that grid as its one completion, keeps at least the
    /// difficulty's floor of givens in every row and column, and never has fewer givens than
    /// the difficulty's range allows; fewer than its top when the target was reached.
    fn build<R: RandomSource>(difficulty: Difficulty, rand: &mut R) -> (r: Option<(Redoku, bool)>)
        ensures
            r matches Some((b, reached)) ==> {
                &&& b.wf()
                &&& b.temps().len() == 0
                &&& unique_completion(b)
                &&& exists|s: Seq<Option<Value>>|
                    solved(s) && extends(b.cells(), s) && forall|t: Seq<Option<Value>>|
                        is_completion(b, t) ==> t == s
                &&& b.empty_count() == empty_set(b.cells()).len()
                &&& targets(difficulty).0 <= 81 - b.empty_count()
                &&& reached ==> 81 - b.empty_count() < targets(difficulty).1
                &&& forall|g: int| 0 <= g < 18 ==> #[trigger] b.grid(g).len() >= targets(difficulty).2
            },
    {
        let mut redoku = Redoku::with_capacity(
            match difficulty {
                Difficulty::VeryEasy => 0,
                Difficulty::Easy => 0,
                Difficulty::Medium => 2,
                Difficulty::Hard => 13,
                Difficulty::Evil => 15,
            },
        );
        if !build_terminal_pattern(&mut redoku, rand) {
            return None;
        }
        let (low, high, floor) = difficulty_targets(difficulty);
        let total_givens = match read_u8_in_range(rand, low, high) {
            Some(total) => total,
            None => {
                return None;
            },
        };
        let ghost terminal = redoku;
        proof {
            lemma_full_board(redoku);
            assert(unique_completion(redoku));
            lemma_empty_count(redoku);
            assert(empty_set(redoku.cells()) =~= Set::<int>::empty());
            assert forall|g: int| 0 <= g < 18 implies #[trigger] redoku.grid(g).len() >= floor by {
                lemma_full_slot(redoku, g);
            }
        }
        let mut order: Vec<(u8, u8)> = Vec::new();
        let mut sequence = Sequence::new(difficulty);
        let mut visits: u32 = 0;
        while visits < DIG_VISITS
            invariant
                forall|m: int| 0 <= m < order@.len() ==> (#[trigger] order@[m]).0 < 9 && order@[m].1 < 9,
                sequence.steps() <= 81,
                sequence.kind() == difficulty,
            decreases DIG_VISITS - visits,
        {
            visits = visits + 1;
            match sequence.next(rand) {
                Some(cell) => order.push(cell),
                None => {
                    break;
                },
            }
        }
        let reached = dig_holes(&mut redoku, &order, total_givens, floor);
        proof {
            let s = terminal.cells();
            assert(solved(s));
            assert forall|i: int| 0 <= i < 81 && (#[trigger] redoku.cells()[i]) is Some implies s[i]
                == redoku.cells()[i] by {}
            lemma_completion_is_solution(redoku, s);
            assert(is_completion(redoku, s));
            let t0 = choose|t: Seq<Option<Value>>|
                is_completion(redoku, t) && forall|u: Seq<Option<Value>>| is_completion(redoku, u) ==> u == t;
            assert(s == t0);
        }
        Some((redoku, reached))
    }
}

} // verus!
