use vstd::prelude::*;

use crate::redoku::{
    empty_set, lemma_cells_finite, lemma_fill_shrinks_empty, lemma_no_empty_full,
    block_of, col_of, derived, full, holds, in_grid, solved, lemma_cell_coords, lemma_same_state_wf, lemma_state_determined,
    lemma_unit_bounds, overlay, row_of, Grid, Redoku,
};
use crate::solver::{
    extends, is_completion, lemma_completion_solved, lemma_forced_placement,
    lemma_place_completions, lemma_same_state_completions, lemma_single_missing, lemma_solved_units,
    lemma_some_missing, search_steps,
    unique_completion, RedokuSolver,
};
use crate::value::{all_digits, digit, lemma_digit_injective, Value, ValueSet};

verus! {

/// How hard a puzzle is, from easiest to hardest.
#[derive(Debug, Clone, Copy, PartialEq, Eq, Structural)]
pub enum Difficulty {
    VeryEasy,
    Easy,
    Medium,
    Hard,
    Evil,
}

/// Why a board could not be graded.
#[derive(Debug, Clone, Copy, PartialEq, Eq, Structural)]
pub enum GradeError {
    /// The board has fewer than 22 givens.
    TooFewGivens,
    /// The board has no completion, or more than one.
    NoUniqueSolution,
}

/// The tier of a score from 1 to 5.
pub open spec fn tier(score: int) -> Difficulty {
    if score <= 1 {
        Difficulty::VeryEasy
    } else if score == 2 {
        Difficulty::Easy
    } else if score == 3 {
        Difficulty::Medium
    } else if score == 4 {
        Difficulty::Hard
    } else {
        Difficulty::Evil
    }
}

/// The score for the number of givens: 1 from 50 on, 2 from 36, 3 from 32, 4 from 28 and 5
/// from 22; none below 22.
pub open spec fn givens_score(givens: int) -> Option<u8> {
    if givens >= 50 {
        Some(1u8)
    } else if givens >= 36 {
        Some(2u8)
    } else if givens >= 32 {
        Some(3u8)
    } else if givens >= 28 {
        Some(4u8)
    } else if givens >= 22 {
        Some(5u8)
    } else {
        None
    }
}

/// The score for the fewest givens of any row or column.
pub open spec fn density_score(min_line: int) -> u8 {
    if min_line >= 5 {
        1
    } else if min_line == 4 {
        2
    } else if min_line >= 2 {
        4
    } else {
        5
    }
}

/// The score for the number of search steps.
pub open spec fn search_score(steps: int) -> u8 {
    if steps <= 99 {
        1
    } else if steps <= 999 {
        2
    } else if steps <= 9999 {
        3
    } else if steps <= 99999 {
        4
    } else {
        5
    }
}

/// The weighted mean `0.4 * s1 + 0.2 * (s2 + s3 + s4)`, rounded to the nearest whole number.
pub open spec fn weighted_score(s1: int, s2: int, s3: int, s4: int) -> int {
    (2 * s1 + s2 + s3 + s4 + 2) / 5
}

/// The difficulty for four scores from 1 to 5: the weighted mean, rounded, read as a tier.
pub fn grade_from_scores(s1: u8, s2: u8, s3: u8, s4: u8) -> (r: Difficulty)
    requires
        1 <= s1 <= 5,
        1 <= s2 <= 5,
        1 <= s3 <= 5,
        1 <= s4 <= 5,
    ensures
        r == tier(weighted_score(s1 as int, s2 as int, s3 as int, s4 as int)),
{
    let total = (2 * s1 + s2 + s3 + s4 + 2) / 5;
    if total <= 1 {
        Difficulty::VeryEasy
    } else if total == 2 {
        Difficulty::Easy
    } else if total == 3 {
        Difficulty::Medium
    } else if total == 4 {
        Difficulty::Hard
    } else {
        Difficulty::Evil
    }
}

/// The score for `givens` givens: 1 from 50 on, 2 from 36, 3 from 32, 4 from 28, 5 from 22,
/// and none below 22.
pub fn givens_step_score(givens: u8) -> (r: Option<u8>)
    ensures
        r == givens_score(givens as int),
{
    if givens >= 50 {
        Some(1)
    } else if givens >= 36 {
        Some(2)
    } else if givens >= 32 {
        Some(3)
    } else if givens >= 28 {
        Some(4)
    } else if givens >= 22 {
        Some(5)
    } else {
        None
    }
}

/// The score for the number of givens, `81 - empty_cells()`.
fn score_cell_total_count(redoku: &Redoku) -> (r: Option<u8>)
    requires
        redoku.wf(),
    ensures
        r == givens_score(81 - redoku.empty_count()),
{
    givens_step_score(81 - redoku.empty_cells())
}

/// The score for a board whose sparsest row or column holds `min_line` digits: 1 from 5
/// on, 2 for 4, 4 for 3 and for 2, 5 below 2.
pub fn density_step_score(min_line: u8) -> (r: u8)
    ensures
        r == density_score(min_line as int),
{
    if min_line >= 5 {
        1
    } else if min_line == 4 {
        2
    } else if min_line >= 2 {
        4
    } else {
        5
    }
}

/// The fewest digits in any row or column of `redoku`.
pub open spec fn min_line(redoku: Redoku) -> int {
    min_line_below(redoku, 9)
}

pub open spec fn min_line_below(redoku: Redoku, n: int) -> int
    decreases n,
{
    if n <= 0 {
        9
    } else {
        let rest = min_line_below(redoku, n - 1);
        let here = if redoku.grid(9 + n - 1).len() <= redoku.grid(n - 1).len() {
            redoku.grid(9 + n - 1).len() as int
        } else {
            redoku.grid(n - 1).len() as int
        };
        if here < rest {
            here
        } else {
            rest
        }
    }
}

/// The score for the fewest givens of any row or column.
fn score_cell_row_column_count(redoku: &Redoku) -> (r: u8)
    requires
        redoku.wf(),
    ensures
        r == density_score(min_line(*redoku)),
{
    let mut min_len: u8 = 9;
    let mut i: u8 = 0;
    while i < 9
        invariant
            redoku.wf(),
            i <= 9,
            min_len == min_line_below(*redoku, i as int),
        decreases 9 - i,
    {
        let row = redoku.row_values(i).len();
        let column = redoku.column_values(i).len();
        let here = if row <= column {
            row
        } else {
            column
        };
        if here < min_len {
            min_len = here;
        }
        i = i + 1;
    }
    density_step_score(min_len)
}

/// The score for `steps` search steps: 1 up to 99, 2 up to 999, 3 up to 9,999, 4 up to
/// 99,999 and 5 beyond.
pub fn search_step_score(steps: u32) -> (r: u8)
    ensures
        r == search_score(steps as int),
        1 <= r <= 5,
{
    if steps <= 99 {
        1
    } else if steps <= 999 {
        2
    } else if steps <= 9999 {
        3
    } else if steps <= 99999 {
        4
    } else {
        5
    }
}

/// The score for the number of steps of a search for a unique completion; `None` when there
/// is no unique completion.
fn score_search_iterations(redoku: &Redoku) -> (r: Option<u8>)
    requires
        redoku.wf(),
    ensures
        r is None <==> !unique_completion(*redoku),
        r matches Some(s) ==> s == search_score(search_steps(*redoku, true)),
{
    match redoku.find_solution(true) {
        Some((_, iterations)) => Some(search_step_score(iterations)),
        None => None,
    }
}


/// The digits that slot `g` holds on a board with cells `cells` and temporary entries
/// `temps`.
pub open spec fn slot_digits(cells: Seq<Option<Value>>, temps: Seq<(Grid, ValueSet)>, g: int) -> Set<nat> {
    derived(cells, g).union(overlay(temps, g))
}

/// The digits that cell `i` may not take on a board with cells `cells` and temporary entries
/// `temps`.
pub open spec fn cells_forbidden(cells: Seq<Option<Value>>, temps: Seq<(Grid, ValueSet)>, i: int) -> Set<nat> {
    slot_digits(cells, temps, col_of(i)).union(slot_digits(cells, temps, 9 + row_of(i))).union(
        slot_digits(cells, temps, 18 + block_of(i)),
    )
}

/// The digit at bit position `d`.
pub open spec fn value_with_digit(d: nat) -> Value {
    if d == 0 {
        Value::One
    } else if d == 1 {
        Value::Two
    } else if d == 2 {
        Value::Three
    } else if d == 3 {
        Value::Four
    } else if d == 4 {
        Value::Five
    } else if d == 5 {
        Value::Six
    } else if d == 6 {
        Value::Seven
    } else if d == 7 {
        Value::Eight
    } else {
        Value::Nine
    }
}

pub proof fn lemma_value_with_digit(v: Value)
    ensures
        value_with_digit(digit(v)) == v,
{
}

/// A well-formed board forbids what its cells and temporary entries forbid.
pub proof fn lemma_forbidden_cells(b: Redoku, i: int)
    requires
        b.wf(),
        0 <= i < 81,
    ensures
        b.forbidden(i) == cells_forbidden(b.cells(), b.temps(), i),
{
    lemma_unit_bounds(i);
}

/// The one member of a set of one digit.
proof fn lemma_singleton_choose(s: Set<nat>, d: nat)
    requires
        s.finite(),
        s.len() == 1,
        s.contains(d),
    ensures
        s.choose() == d,
{
    let e = s.choose();
    if e != d {
        let two = set![d, e];
        assert(two.subset_of(s));
        vstd::set_lib::lemma_len_subset(two, s);
        assert(two.len() == 2);
    }
}

/// An elimination at cell `i`: an empty cell with eight forbidden digits takes the ninth.
pub open spec fn elim_step(cells: Seq<Option<Value>>, temps: Seq<(Grid, ValueSet)>, i: int) -> Seq<Option<Value>> {
    let f = cells_forbidden(cells, temps, i);
    if cells[i] is None && f.len() == 8 {
        cells.update(i, Some(value_with_digit(all_digits().difference(f).choose())))
    } else {
        cells
    }
}

/// The cells after an elimination pass from visit `v` on, the cells being visited column by
/// column (visit `v` is column `v / 9`, row `v % 9`).
pub open spec fn elim_from(cells: Seq<Option<Value>>, temps: Seq<(Grid, ValueSet)>, v: int) -> Seq<Option<Value>>
    decreases 81 - v,
{
    if v < 0 || v >= 81 {
        cells
    } else {
        elim_from(elim_step(cells, temps, 9 * (v % 9) + v / 9), temps, v + 1)
    }
}

/// Whether some empty cell of `b` has exactly eight forbidden digits.
pub open spec fn has_forced_cell(b: Redoku) -> bool {
    exists|i: int| 0 <= i < 81 && b.cells()[i] is None && #[trigger] b.forbidden(i).len() == 8
}

/// Whether cell `i` comes before cell `(x, y)` when the cells are visited column by column.
spec fn visited_before(i: int, x: int, y: int) -> bool {
    col_of(i) < x || (col_of(i) == x && row_of(i) < y)
}

/// Fills every empty cell whose column, row and block already hold eight digits with the
/// ninth, visiting the cells column by column. Returns whether any cell was filled, which
/// is exactly when the board had such a cell.
pub fn try_row_col_block_elimination(redoku: &mut Redoku) -> (r: bool)
    requires
        old(redoku).wf(),
    ensures
        final(redoku).wf(),
        final(redoku).temps() == old(redoku).temps(),
        extends(old(redoku).cells(), final(redoku).cells()),
        r == (final(redoku).cells() != old(redoku).cells()),
        r == has_forced_cell(*old(redoku)),
        final(redoku).cells() == elim_from(old(redoku).cells(), old(redoku).temps(), 0),
        forall|t: Seq<Option<Value>>|
            is_completion(*old(redoku), t) ==> #[trigger] is_completion(*final(redoku), t),
{
    let mut success = false;
    let mut x: u8 = 0;
    while x < 9
        invariant
            x <= 9,
            redoku.wf(),
            old(redoku).wf(),
            redoku.temps() == old(redoku).temps(),
            extends(old(redoku).cells(), redoku.cells()),
            success == (redoku.cells() != old(redoku).cells()),
            success ==> has_forced_cell(*old(redoku)),
            !success ==> forall|i: int|
                0 <= i < 81 && visited_before(i, x as int, 0) ==> !(old(redoku).cells()[i] is None
                    && #[trigger] old(redoku).forbidden(i).len() == 8),
            forall|t: Seq<Option<Value>>|
                is_completion(*old(redoku), t) ==> #[trigger] is_completion(*redoku, t),
            elim_from(old(redoku).cells(), old(redoku).temps(), 0) == elim_from(
                redoku.cells(),
                old(redoku).temps(),
                9 * x,
            ),
        decreases 9 - x,
    {
        let mut y: u8 = 0;
        while y < 9
            invariant
                x < 9,
                y <= 9,
                redoku.wf(),
                old(redoku).wf(),
                redoku.temps() == old(redoku).temps(),
                extends(old(redoku).cells(), redoku.cells()),
                success == (redoku.cells() != old(redoku).cells()),
                success ==> has_forced_cell(*old(redoku)),
                !success ==> forall|i: int|
                    0 <= i < 81 && visited_before(i, x as int, y as int) ==> !(old(
                        redoku,
                    ).cells()[i] is None && #[trigger] old(redoku).forbidden(i).len() == 8),
                forall|t: Seq<Option<Value>>|
                    is_completion(*old(redoku), t) ==> #[trigger] is_completion(*redoku, t),
                elim_from(old(redoku).cells(), old(redoku).temps(), 0) == elim_from(
                    redoku.cells(),
                    old(redoku).temps(),
                    9 * x + y,
                ),
            decreases 9 - y,
        {
            let ghost i = 9 * y + x;
            let ghost was_success = success;
            let ghost start = *redoku;
            let ghost vv = 9 * x + y;
            proof {
                lemma_cell_coords(x as int, y as int);
                lemma_forbidden_cells(start, i);
                assert(vv % 9 == y && vv / 9 == x);
                assert(9 * (vv % 9) + vv / 9 == i);
                if !success {
                    lemma_state_determined(*redoku, *old(redoku));
                }
            }
            if redoku.get(x, y).is_none() {
                let values = redoku.calculate_impossible_values(x, y);
                if values.len() == 8 {
                    let mut missing = ValueSet::full().difference(&values);
                    proof {
                        values.lemma_wf();
                        lemma_some_missing(values@);
                        let d = choose|d: nat| d < 9 && !values@.contains(d);
                        assert(missing@.contains(d));
                    }
                    let value = missing.next();
                    let ghost before = *redoku;
                    if redoku.place_if_valid(x, y, value) && value.is_some() {
                        proof {
                            let v = value->0;
                            assert(redoku.cells()[i] is Some);
                            assert(old(redoku).cells()[i] is None);
                            lemma_single_missing(values@, digit(v));
                            lemma_forced_placement(before, *redoku, i, v);
                            let f = cells_forbidden(start.cells(), start.temps(), i);
                            let m = all_digits().difference(f);
                            assert(m.subset_of(all_digits()));
                            crate::value::lemma_digit_set_bounds(m);
                            assert(m.contains(digit(v)));
                            assert(m.choose() < 9 && !f.contains(m.choose()));
                            lemma_value_with_digit(v);
                            assert(redoku.cells() == elim_step(start.cells(), start.temps(), i));
                            if !was_success {
                                assert(old(redoku).forbidden(i).len() == 8);
                            }
                        }
                        success = true;
                    } else {
                        proof {
                            assert(value is Some);
                            assert(redoku.cells() =~= before.cells());
                            lemma_state_determined(*redoku, before);
                            lemma_same_state_completions(*redoku, before);
                        }
                    }
                }
            }
            proof {
                assert(redoku.cells() == elim_step(start.cells(), start.temps(), i));
                assert(elim_from(start.cells(), start.temps(), vv) == elim_from(
                    elim_step(start.cells(), start.temps(), i),
                    start.temps(),
                    vv + 1,
                ));
                if !success {
                    assert forall|j: int|
                        0 <= j < 81 && visited_before(j, x as int, y + 1) implies !(old(
                            redoku,
                        ).cells()[j] is None && #[trigger] old(redoku).forbidden(j).len() == 8) by {
                        lemma_unit_bounds(j);
                        if j != i {
                            assert(visited_before(j, x as int, y as int));
                        }
                    }
                }
            }
            y = y + 1;
        }
        proof {
            if !success {
                assert forall|j: int|
                    0 <= j < 81 && visited_before(j, x + 1, 0) implies !(old(redoku).cells()[j] is None
                        && #[trigger] old(redoku).forbidden(j).len() == 8) by {
                    lemma_unit_bounds(j);
                    assert(visited_before(j, x as int, 9));
                }
            }
        }
        x = x + 1;
    }
    proof {
        if !success {
            assert forall|j: int| 0 <= j < 81 implies !(old(redoku).cells()[j] is None
                && #[trigger] old(redoku).forbidden(j).len() == 8) by {
                lemma_unit_bounds(j);
                assert(visited_before(j, 9, 0));
            }
        }
    }
    success
}

/// Whether cells `i` and `j` share the column (`line == 0`), the row (`line == 1`) or the
/// block (any other `line`).
pub open spec fn same_line(i: int, j: int, line: int) -> bool {
    if line == 0 {
        col_of(i) == col_of(j)
    } else if line == 1 {
        row_of(i) == row_of(j)
    } else {
        block_of(i) == block_of(j)
    }
}

/// The digits that cell `i` can take.
pub open spec fn candidates(b: Redoku, i: int) -> Set<nat> {
    all_digits().difference(b.forbidden(i))
}

/// The digits that cell `i` can take and no other empty cell sharing its line can.
pub open spec fn lone_in_line(b: Redoku, i: int, line: int) -> Set<nat> {
    candidates(b, i).filter(
        |d: nat|
            forall|j: int|
                0 <= j < 81 && j != i && same_line(i, j, line) && #[trigger] b.cells()[j] is None
                    ==> !candidates(b, j).contains(d),
    )
}

/// The cell in place `k` of the line through cell `i`.
pub open spec fn line_cell(i: int, line: int, k: int) -> int {
    if line == 0 {
        9 * k + col_of(i)
    } else if line == 1 {
        9 * row_of(i) + k
    } else {
        9 * (3 * (row_of(i) / 3) + k / 3) + 3 * (col_of(i) / 3) + k % 3
    }
}

/// The place of cell `j` on its lines.
spec fn line_place(j: int, line: int) -> int {
    if line == 0 {
        row_of(j)
    } else if line == 1 {
        col_of(j)
    } else {
        3 * (row_of(j) % 3) + col_of(j) % 3
    }
}

proof fn lemma_line_cell(i: int, line: int, k: int)
    requires
        0 <= i < 81,
        0 <= k < 9,
    ensures
        0 <= line_cell(i, line, k) < 81,
        same_line(i, line_cell(i, line, k), line),
{
    lemma_unit_bounds(i);
    if line != 0 && line != 1 {
        let r = 3 * (row_of(i) / 3) + k / 3;
        let q = 3 * (col_of(i) / 3) + k % 3;
        assert(0 <= r < 9 && 0 <= q < 9);
        lemma_cell_coords(q, r);
    } else if line == 0 {
        lemma_cell_coords(col_of(i), k);
    } else {
        lemma_cell_coords(k, row_of(i));
    }
}

proof fn lemma_line_place(i: int, line: int, j: int)
    requires
        0 <= i < 81,
        0 <= j < 81,
        same_line(i, j, line),
    ensures
        0 <= line_place(j, line) < 9,
        line_cell(i, line, line_place(j, line)) == j,
{
    lemma_unit_bounds(i);
    lemma_unit_bounds(j);
    let r = row_of(j);
    let q = col_of(j);
    if line != 0 && line != 1 {
        let a = r % 3;
        let c = q % 3;
        let p = 3 * a + c;
        assert(p / 3 == a && p % 3 == c);
        assert(row_of(i) / 3 == r / 3 && col_of(i) / 3 == q / 3);
        assert(3 * (r / 3) + a == r);
        assert(3 * (q / 3) + c == q);
    }
}

/// The digits that cell `i` can take and no cell among the first `k` of the chosen line
/// through it, other than itself and when empty, can.
spec fn lone_prefix(b: Redoku, i: int, line: int, k: int) -> Set<nat> {
    candidates(b, i).filter(
        |d: nat|
            forall|m: int|
                0 <= m < k && line_cell(i, line, m) != i && #[trigger] b.cells()[line_cell(
                    i,
                    line,
                    m,
                )] is None ==> !candidates(b, line_cell(i, line, m)).contains(d),
    )
}

proof fn lemma_lone_prefix_step(b: Redoku, i: int, line: int, k: int, before: Set<nat>, after: Set<nat>)
    requires
        before == lone_prefix(b, i, line, k),
        0 <= k,
        (line_cell(i, line, k) != i && b.cells()[line_cell(i, line, k)] is None) ==> after
            == before.difference(candidates(b, line_cell(i, line, k))),
        !(line_cell(i, line, k) != i && b.cells()[line_cell(i, line, k)] is None) ==> after
            == before,
    ensures
        after == lone_prefix(b, i, line, k + 1),
{
    assert(after =~= lone_prefix(b, i, line, k + 1));
}

proof fn lemma_lone_prefix_full(b: Redoku, i: int, line: int)
    requires
        0 <= i < 81,
    ensures
        lone_prefix(b, i, line, 9) == lone_in_line(b, i, line),
{
    assert forall|d: nat| lone_prefix(b, i, line, 9).contains(d) implies lone_in_line(b, i, line).contains(d) by {
        assert forall|j: int|
            0 <= j < 81 && j != i && same_line(i, j, line) && #[trigger] b.cells()[j] is None
                implies !candidates(b, j).contains(d) by {
            lemma_line_place(i, line, j);
            let m = line_place(j, line);
            assert(b.cells()[line_cell(i, line, m)] is None);
        }
    }
    assert forall|d: nat| lone_in_line(b, i, line).contains(d) implies lone_prefix(b, i, line, 9).contains(d) by {
        assert forall|m: int|
            0 <= m < 9 && line_cell(i, line, m) != i && #[trigger] b.cells()[line_cell(
                i,
                line,
                m,
            )] is None implies !candidates(b, line_cell(i, line, m)).contains(d) by {
            lemma_line_cell(i, line, m);
        }
    }
    assert(lone_prefix(b, i, line, 9) =~= lone_in_line(b, i, line));
}

/// The digits that cell `(x, y)` can take and no other empty cell of one line through it
/// can: its column when `line` is 0, its row when `line` is 1, else its block.
fn lone_candidates(redoku: &Redoku, x: u8, y: u8, line: u8) -> (r: ValueSet)
    requires
        redoku.wf(),
        x < 9,
        y < 9,
    ensures
        r.wf(),
        r@ == lone_in_line(*redoku, 9 * y + x, line as int),
{
    let ghost i = 9 * y + x;
    let ghost b = *redoku;
    proof {
        lemma_cell_coords(x as int, y as int);
    }
    let mut values = redoku.calculate_possible_values(x, y);
    let (block_x, block_y) = (x / 3, y / 3);
    let mut k: u8 = 0;
    proof {
        assert(values@ =~= lone_prefix(b, i, line as int, 0));
    }
    while k < 9
        invariant
            redoku.wf(),
            b == *redoku,
            i == 9 * y + x,
            row_of(i) == y,
            col_of(i) == x,
            0 <= i < 81,
            x < 9,
            y < 9,
            block_x == x / 3,
            block_y == y / 3,
            k <= 9,
            values.wf(),
            values@ == lone_prefix(b, i, line as int, k as int),
        decreases 9 - k,
    {
        let (cx, cy) = if line == 0 {
            (x, k)
        } else if line == 1 {
            (k, y)
        } else {
            (block_x * 3 + k % 3, block_y * 3 + k / 3)
        };
        let ghost j = line_cell(i, line as int, k as int);
        let ghost before = values@;
        proof {
            lemma_line_cell(i, line as int, k as int);
            assert(j == 9 * cy + cx);
        }
        if (cx != x || cy != y) && redoku.get(cx, cy).is_none() {
            let others = redoku.calculate_possible_values(cx, cy);
            values = values.difference(&others);
        }
        proof {
            lemma_lone_prefix_step(b, i, line as int, k as int, before, values@);
        }
        k = k + 1;
    }
    proof {
        lemma_lone_prefix_full(b, i, line as int);
    }
    values
}

/// The slot of the line through cell `i`.
spec fn line_slot(i: int, line: int) -> int {
    if line == 0 {
        col_of(i)
    } else if line == 1 {
        9 + row_of(i)
    } else {
        18 + block_of(i)
    }
}

proof fn lemma_line_slot(i: int, line: int, j: int)
    requires
        0 <= i < 81,
        0 <= j < 81,
    ensures
        0 <= line_slot(i, line) < 27,
        in_grid(j, line_slot(i, line)) <==> same_line(i, j, line),
        line_slot(i, line) == col_of(i) || line_slot(i, line) == 9 + row_of(i) || line_slot(i, line)
            == 18 + block_of(i),
{
    lemma_unit_bounds(i);
    lemma_unit_bounds(j);
}

/// Boards with the same cells, sets and temporary entries have the same lone digits.
proof fn lemma_lone_same_state(a: Redoku, b: Redoku, i: int, line: int)
    requires
        a.same_state(&b),
    ensures
        lone_in_line(a, i, line) == lone_in_line(b, i, line),
{
    assert forall|j: int| 0 <= j < 81 implies #[trigger] a.forbidden(j) == b.forbidden(j) by {}
    assert(a.forbidden(i) == b.forbidden(i));
    assert forall|d: nat| lone_in_line(a, i, line).contains(d) implies lone_in_line(b, i, line).contains(d) by {
        assert forall|j: int|
            0 <= j < 81 && j != i && same_line(i, j, line) && #[trigger] b.cells()[j] is None
                implies !candidates(b, j).contains(d) by {
            assert(a.cells()[j] is None);
            assert(a.forbidden(j) == b.forbidden(j));
        }
    }
    assert forall|d: nat| lone_in_line(b, i, line).contains(d) implies lone_in_line(a, i, line).contains(d) by {
        assert forall|j: int|
            0 <= j < 81 && j != i && same_line(i, j, line) && #[trigger] a.cells()[j] is None
                implies !candidates(a, j).contains(d) by {
            assert(b.cells()[j] is None);
            assert(a.forbidden(j) == b.forbidden(j));
        }
    }
    assert(lone_in_line(a, i, line) =~= lone_in_line(b, i, line));
}

/// A digit that, of the empty cells of one line, only cell `i` can take stands in `i` in
/// every completion.
pub proof fn lemma_lone_forced(b: Redoku, i: int, line: int, v: Value, t: Seq<Option<Value>>)
    requires
        b.wf(),
        0 <= i < 81,
        b.cells()[i] is None,
        lone_in_line(b, i, line).contains(digit(v)),
        is_completion(b, t),
    ensures
        t[i] == Some(v),
{
    let d = digit(v);
    let g = line_slot(i, line);
    let c = b.cells();
    lemma_line_slot(i, line, i);
    lemma_completion_solved(b, t);
    lemma_solved_units(t, g, d);
    let j = choose|j: int| 0 <= j < 81 && in_grid(j, g) && #[trigger] holds(t, j, d);
    lemma_line_slot(i, line, j);
    if j != i {
        if c[j] is Some {
            assert(t[j] == c[j]);
            assert(holds(c, j, d));
            assert(derived(c, g).contains(d));
            assert(b.grid(g) == derived(c, g).union(overlay(b.temps(), g)));
            assert(b.forbidden(i).contains(d));
        } else {
            assert(!b.forbidden(j).contains(d));
            assert(candidates(b, j).contains(d));
        }
    }
    lemma_digit_injective(t[i]->0, v);
}

/// The digits that cell `i` can take on a board with cells `cells` and temporary entries
/// `temps`.
pub open spec fn cells_candidates(cells: Seq<Option<Value>>, temps: Seq<(Grid, ValueSet)>, i: int) -> Set<nat> {
    all_digits().difference(cells_forbidden(cells, temps, i))
}

/// The digits that cell `i` can take and no other empty cell of one line through it can, on
/// a board with cells `cells` and temporary entries `temps`.
pub open spec fn cells_lone(cells: Seq<Option<Value>>, temps: Seq<(Grid, ValueSet)>, i: int, line: int) -> Set<nat> {
    cells_candidates(cells, temps, i).filter(
        |d: nat|
            forall|j: int|
                0 <= j < 81 && j != i && same_line(i, j, line) && #[trigger] cells[j] is None
                    ==> !cells_candidates(cells, temps, j).contains(d),
    )
}

proof fn lemma_lone_cells(b: Redoku, i: int, line: int)
    requires
        b.wf(),
        0 <= i < 81,
    ensures
        lone_in_line(b, i, line) == cells_lone(b.cells(), b.temps(), i, line),
{
    assert forall|j: int| 0 <= j < 81 implies #[trigger] candidates(b, j) == cells_candidates(
        b.cells(),
        b.temps(),
        j,
    ) by {
        lemma_forbidden_cells(b, j);
    }
    lemma_forbidden_cells(b, i);
    assert(lone_in_line(b, i, line) =~= cells_lone(b.cells(), b.temps(), i, line));
}

/// What the lone-ranger pass does at the empty cell `i`: the cell takes the one lone digit of
/// its column, else of its row, else of its block, if there is one; the flag says the
/// digit came from its column or row, after which the pass leaves that column.
pub open spec fn lone_step(cells: Seq<Option<Value>>, temps: Seq<(Grid, ValueSet)>, i: int) -> (Seq<Option<Value>>, bool) {
    let c0 = cells_lone(cells, temps, i, 0);
    let c1 = cells_lone(cells, temps, i, 1);
    let c2 = cells_lone(cells, temps, i, 2);
    if cells[i] is Some {
        (cells, false)
    } else if c0.len() == 1 {
        (cells.update(i, Some(value_with_digit(c0.choose()))), true)
    } else if c1.len() == 1 {
        (cells.update(i, Some(value_with_digit(c1.choose()))), true)
    } else if c2.len() == 1 {
        (cells.update(i, Some(value_with_digit(c2.choose()))), false)
    } else {
        (cells, false)
    }
}

/// The cells after a lone-ranger pass from visit `v` on, the cells being visited column by
/// column (visit `v` is column `v / 9`, row `v % 9`); a digit found through a column or a row
/// ends the visit of that column.
pub open spec fn lone_from(cells: Seq<Option<Value>>, temps: Seq<(Grid, ValueSet)>, v: int) -> Seq<Option<Value>>
    decreases 81 - v,
{
    if v < 0 || v >= 81 {
        cells
    } else {
        let st = lone_step(cells, temps, 9 * (v % 9) + v / 9);
        if st.1 {
            lone_from(st.0, temps, 9 * (v / 9 + 1))
        } else {
            lone_from(st.0, temps, v + 1)
        }
    }
}

/// Whether some empty cell of `b` is the only empty cell of its column, row or block that can
/// take some digit, and that digit is the only such one.
pub open spec fn has_lone_digit(b: Redoku) -> bool {
    exists|i: int, line: int|
        0 <= i < 81 && 0 <= line < 3 && b.cells()[i] is None && #[trigger] lone_in_line(
            b,
            i,
            line,
        ).len() == 1
}

/// For each empty cell, visited column by column, looks for a digit that no other empty
/// cell of its column, then of its row, then of its block can take, and places it when there
/// is exactly one. Returns whether any cell was filled, which is exactly when the board had
/// such a cell.
pub fn try_lone_ranger(redoku: &mut Redoku) -> (r: bool)
    requires
        old(redoku).wf(),
    ensures
        final(redoku).wf(),
        final(redoku).temps() == old(redoku).temps(),
        extends(old(redoku).cells(), final(redoku).cells()),
        r == (final(redoku).cells() != old(redoku).cells()),
        r == has_lone_digit(*old(redoku)),
        final(redoku).cells() == lone_from(old(redoku).cells(), old(redoku).temps(), 0),
        forall|t: Seq<Option<Value>>|
            is_completion(*old(redoku), t) ==> #[trigger] is_completion(*final(redoku), t),
{
    let mut success = false;
    let mut x: u8 = 0;
    while x < 9
        invariant
            x <= 9,
            redoku.wf(),
            old(redoku).wf(),
            redoku.temps() == old(redoku).temps(),
            extends(old(redoku).cells(), redoku.cells()),
            success == (redoku.cells() != old(redoku).cells()),
            success ==> has_lone_digit(*old(redoku)),
            !success ==> forall|i: int, line: int|
                0 <= i < 81 && 0 <= line < 3 && visited_before(i, x as int, 0) ==> !(old(
                    redoku,
                ).cells()[i] is None && #[trigger] lone_in_line(*old(redoku), i, line).len() == 1),
            forall|t: Seq<Option<Value>>|
                is_completion(*old(redoku), t) ==> #[trigger] is_completion(*redoku, t),
            lone_from(old(redoku).cells(), old(redoku).temps(), 0) == lone_from(
                redoku.cells(),
                old(redoku).temps(),
                9 * x,
            ),
        decreases 9 - x,
    {
        let mut y: u8 = 0;
        while y < 9
            invariant_except_break
                lone_from(old(redoku).cells(), old(redoku).temps(), 0) == lone_from(
                    redoku.cells(),
                    old(redoku).temps(),
                    9 * x + y,
                ),
            invariant
                x < 9,
                y <= 9,
                redoku.wf(),
                old(redoku).wf(),
                redoku.temps() == old(redoku).temps(),
                extends(old(redoku).cells(), redoku.cells()),
                success == (redoku.cells() != old(redoku).cells()),
                success ==> has_lone_digit(*old(redoku)),
                !success ==> forall|i: int, line: int|
                    0 <= i < 81 && 0 <= line < 3 && visited_before(i, x as int, y as int) ==> !(old(
                        redoku,
                    ).cells()[i] is None && #[trigger] lone_in_line(*old(redoku), i, line).len()
                        == 1),
                forall|t: Seq<Option<Value>>|
                    is_completion(*old(redoku), t) ==> #[trigger] is_completion(*redoku, t),
            ensures
                !success ==> y == 9,
                lone_from(old(redoku).cells(), old(redoku).temps(), 0) == lone_from(
                    redoku.cells(),
                    old(redoku).temps(),
                    9 * x + 9,
                ),
            decreases 9 - y,
        {
            let ghost i = 9 * y + x;
            let ghost cell_start = *redoku;
            let ghost vv = 9 * x + y;
            proof {
                lemma_cell_coords(x as int, y as int);
                assert(vv % 9 == y && vv / 9 == x);
                assert(9 * (vv % 9) + vv / 9 == i);
                assert(9 * (vv / 9 + 1) == 9 * x + 9);
                if !success {
                    lemma_state_determined(*redoku, *old(redoku));
                }
            }
            if redoku.get(x, y).is_none() {
                let ghost start = *redoku;
                let column_values = lone_candidates(redoku, x, y, 0);
                let row_values = lone_candidates(redoku, x, y, 1);
                let block_values = lone_candidates(redoku, x, y, 2);
                proof {
                    if !success {
                        lemma_lone_same_state(start, *old(redoku), i, 0);
                        lemma_lone_same_state(start, *old(redoku), i, 1);
                        lemma_lone_same_state(start, *old(redoku), i, 2);
                    }
                }
                let ghost was_success = success;
                let mut placed_in_line = false;
                let mut placed_here = false;
                let mut line: u8 = 0;
                while line < 3
                    invariant
                        x < 9,
                        y < 9,
                        i == 9 * y + x,
                        line <= 3,
                        redoku.wf(),
                        start.wf(),
                        old(redoku).wf(),
                        start.cells()[i] is None,
                        redoku.temps() == old(redoku).temps(),
                        extends(old(redoku).cells(), redoku.cells()),
                        success == (redoku.cells() != old(redoku).cells()),
                        success ==> has_lone_digit(*old(redoku)),
                        !success ==> !was_success,
                        placed_in_line ==> success,
                        !was_success ==> start.same_state(&*old(redoku)),
                        !success ==> forall|l: int|
                            0 <= l < line ==> !(#[trigger] lone_in_line(*old(redoku), i, l).len()
                                == 1),
                        forall|t: Seq<Option<Value>>|
                            is_completion(*old(redoku), t) ==> #[trigger] is_completion(*redoku, t),
                        line < 3 ==> redoku.same_state(&start),
                        column_values.wf(),
                        row_values.wf(),
                        block_values.wf(),
                        column_values@ == lone_in_line(start, i, 0),
                        row_values@ == lone_in_line(start, i, 1),
                        block_values@ == lone_in_line(start, i, 2),
                        start == cell_start,
                        placed_in_line ==> placed_here,
                        !placed_here ==> redoku.cells() == start.cells() && forall|l: int|
                            0 <= l < line ==> #[trigger] lone_in_line(start, i, l).len() != 1,
                        placed_here ==> line == 3 && (redoku.cells(), placed_in_line) == lone_step(
                            start.cells(),
                            start.temps(),
                            i,
                        ),
                    decreases 3 - line,
                {
                    let mut pool = if line == 0 {
                        column_values
                    } else if line == 1 {
                        row_values
                    } else {
                        block_values
                    };
                    let ghost lone = pool@;
                    if pool.len() == 1 && redoku.get(x, y).is_none() {
                        let value = pool.next();
                        let ghost before = *redoku;
                        if redoku.place_if_valid(x, y, value) && value.is_some() {
                            proof {
                                let v = value->0;
                                assert(redoku.cells()[i] is Some);
                                assert(old(redoku).cells()[i] is None);
                                lemma_lone_same_state(before, start, i, line as int);
                                lemma_place_completions(before, *redoku, i, v);
                                assert forall|t: Seq<Option<Value>>|
                                    is_completion(*old(redoku), t) implies #[trigger] is_completion(
                                    *redoku,
                                    t,
                                ) by {
                                    assert(is_completion(before, t));
                                    lemma_lone_forced(before, i, line as int, v, t);
                                }
                                if !was_success {
                                    lemma_lone_same_state(start, *old(redoku), i, line as int);
                                    assert(lone_in_line(*old(redoku), i, line as int).len() == 1);
                                }
                                lemma_lone_cells(start, i, 0);
                                lemma_lone_cells(start, i, 1);
                                lemma_lone_cells(start, i, 2);
                                lemma_lone_cells(start, i, line as int);
                                assert(lone_in_line(start, i, line as int) == lone);
                                assert(lone.contains(digit(v)));
                                crate::value::lemma_digit_set_bounds(lone);
                                lemma_singleton_choose(lone, digit(v));
                                lemma_value_with_digit(v);
                                assert(redoku.cells() == start.cells().update(i, Some(v)));
                                if line == 0 {
                                } else if line == 1 {
                                    assert(lone_in_line(start, i, 0).len() != 1);
                                } else {
                                    assert(lone_in_line(start, i, 0).len() != 1);
                                    assert(lone_in_line(start, i, 1).len() != 1);
                                }
                            }
                            placed_here = true;
                            success = true;
                            placed_in_line = line < 2;
                            line = 3;
                        } else {
                            proof {
                                assert(lone.len() == 1);
                                assert(lone != Set::<nat>::empty());
                                assert(value is Some);
                                assert(before.same_state(&start));
                                assert(before.forbidden(i) == start.forbidden(i));
                                assert(candidates(start, i).contains(digit(value->0)));
                                lemma_lone_same_state(before, start, i, line as int);
                                assert(redoku.cells() =~= before.cells());
                                lemma_state_determined(*redoku, before);
                                lemma_same_state_completions(*redoku, before);
                            }
                            line = line + 1;
                        }
                    } else {
                        proof {
                            if !success {
                                lemma_lone_same_state(start, *old(redoku), i, line as int);
                                assert(redoku.cells()[i] is None);
                            }
                        }
                        line = line + 1;
                    }
                }
                proof {
                    let t = old(redoku).temps();
                    let st = lone_step(start.cells(), t, i);
                    lemma_lone_cells(start, i, 0);
                    lemma_lone_cells(start, i, 1);
                    lemma_lone_cells(start, i, 2);
                    if !placed_here {
                        assert(lone_in_line(start, i, 0).len() != 1);
                        assert(lone_in_line(start, i, 1).len() != 1);
                        assert(lone_in_line(start, i, 2).len() != 1);
                        assert(st == (start.cells(), false));
                    }
                    assert((redoku.cells(), placed_in_line) == st);
                    assert(lone_from(start.cells(), t, vv) == (if st.1 {
                        lone_from(st.0, t, 9 * x + 9)
                    } else {
                        lone_from(st.0, t, vv + 1)
                    }));
                }
                if placed_in_line {
                    break;
                }
            } else {
                proof {
                    let t = old(redoku).temps();
                    assert(lone_step(cell_start.cells(), t, i) == (cell_start.cells(), false));
                    assert(lone_from(cell_start.cells(), t, vv) == lone_from(
                        cell_start.cells(),
                        t,
                        vv + 1,
                    ));
                }
            }
            proof {
                if !success {
                    assert forall|j: int, l: int|
                        0 <= j < 81 && 0 <= l < 3 && visited_before(j, x as int, y + 1) implies !(old(
                            redoku,
                        ).cells()[j] is None && #[trigger] lone_in_line(*old(redoku), j, l).len()
                            == 1) by {
                        lemma_unit_bounds(j);
                        if j != i {
                            assert(visited_before(j, x as int, y as int));
                        }
                    }
                }
            }
            y = y + 1;
        }
        proof {
            if !success {
                assert forall|j: int, l: int|
                    0 <= j < 81 && 0 <= l < 3 && visited_before(j, x + 1, 0) implies !(old(
                        redoku,
                    ).cells()[j] is None && #[trigger] lone_in_line(*old(redoku), j, l).len() == 1) by {
                    lemma_unit_bounds(j);
                    assert(visited_before(j, x as int, 9));
                }
            }
        }
        x = x + 1;
    }
    proof {
        if !success {
            assert forall|j: int, l: int|
                0 <= j < 81 && 0 <= l < 3 implies !(old(redoku).cells()[j] is None
                    && #[trigger] lone_in_line(*old(redoku), j, l).len() == 1) by {
                lemma_unit_bounds(j);
                assert(visited_before(j, 9, 0));
            }
        }
    }
    success
}

/// The line a pair-or-triple scan reads: its row for `line == 0`, its column for
/// `line == 1`, else its block.
pub open spec fn scan_line_kind(line: int) -> int {
    if line == 0 {
        1
    } else if line == 1 {
        0
    } else {
        line
    }
}

/// A scan for pairs and triples through cell `i` after its first `k` places: the candidate
/// pool, how many empty cells share it (cell `i` included), how many empty cells were seen
/// (cell `i` included), and whether a pair is ruled out. A cell whose candidates, two or
/// more, lie in the pool shares it; a cell with three candidates that hold the pool widens
/// the pool to them and rules out a pair.
pub open spec fn scan_spec(b: Redoku, i: int, line: int, k: int, start: Set<nat>) -> (
    Set<nat>,
    int,
    int,
    bool,
)
    decreases k,
{
    if k <= 0 {
        (start, 1, 1, false)
    } else {
        let prev = scan_spec(b, i, line, k - 1, start);
        let j = line_cell(i, scan_line_kind(line), k - 1);
        if j != i && b.cells()[j] is None {
            let cur = candidates(b, j);
            if cur.subset_of(prev.0) && cur.len() > 1 {
                (prev.0, prev.1 + 1, prev.2 + 1, prev.3 || prev.0.len() == 3)
            } else if prev.0.subset_of(cur) && cur != prev.0 && cur.len() == 3 {
                (cur, prev.1 + 1, prev.2 + 1, true)
            } else {
                (prev.0, prev.1, prev.2 + 1, prev.3)
            }
        } else {
            prev
        }
    }
}

/// Whether the scan through the empty cell `i` finds a pair or a triple: some empty cell of
/// the line lies outside the group, and the group is two cells that are a pair or three.
pub open spec fn finds_group(b: Redoku, i: int, line: int) -> bool {
    let r = scan_spec(b, i, line, 9, candidates(b, i));
    r.2 > r.1 && ((r.1 == 2 && !r.3) || r.1 == 3)
}

/// Whether some empty cell of `b` with two or three candidates has a pair or a triple in one
/// of its lines.
pub open spec fn has_group(b: Redoku) -> bool {
    exists|i: int, line: int|
        0 <= i < 81 && 0 <= line < 3 && b.cells()[i] is None && 2 <= candidates(b, i).len() <= 3
            && #[trigger] finds_group(b, i, line)
}

proof fn lemma_scan_same_state(a: Redoku, b: Redoku, i: int, line: int, k: int, start: Set<nat>)
    requires
        a.same_state(&b),
    ensures
        scan_spec(a, i, line, k, start) == scan_spec(b, i, line, k, start),
    decreases k,
{
    if k > 0 {
        lemma_scan_same_state(a, b, i, line, k - 1, start);
        let j = line_cell(i, scan_line_kind(line), k - 1);
        assert(a.forbidden(j) == b.forbidden(j));
    }
}

/// What a scan of one line for twins or triplets finds, starting from the candidates of one
/// cell: the candidate pool (possibly widened to a three-digit set), how many empty cells
/// share it, how many empty cells the line has, and whether a pair was ruled out.
struct LineScan {
    pool: ValueSet,
    sharing: u8,
    empty: u8,
    not_a_pair: bool,
}

/// Scans the row (`line == 0`), column (`line == 1`) or block of `(x, y)` for empty cells
/// whose candidates lie within `pool`, or widen a smaller pool to three digits.
fn scan_line(redoku: &Redoku, x: u8, y: u8, line: u8, pool: ValueSet) -> (r: LineScan)
    requires
        redoku.wf(),
        x < 9,
        y < 9,
        pool.wf(),
    ensures
        r.pool.wf(),
        1 <= r.sharing <= r.empty <= 10,
        (r.pool@, r.sharing as int, r.empty as int, r.not_a_pair) == scan_spec(
            *redoku,
            9 * y + x,
            line as int,
            9,
            pool@,
        ),
{
    let ghost start = pool@;
    let ghost c = 9 * y + x;
    proof {
        lemma_cell_coords(x as int, y as int);
    }
    let mut pool = pool;
    let mut sharing: u8 = 1;
    let mut empty: u8 = 1;
    let mut not_a_pair = false;
    let (block_x, block_y) = (x / 3, y / 3);
    let mut i: u8 = 0;
    while i < 9
        invariant
            redoku.wf(),
            x < 9,
            y < 9,
            c == 9 * y + x,
            row_of(c) == y,
            col_of(c) == x,
            0 <= c < 81,
            block_x == x / 3,
            block_y == y / 3,
            i <= 9,
            pool.wf(),
            1 <= sharing <= empty <= 1 + i,
            (pool@, sharing as int, empty as int, not_a_pair) == scan_spec(
                *redoku,
                c,
                line as int,
                i as int,
                start,
            ),
        decreases 9 - i,
    {
        let (cx, cy) = if line == 0 {
            (i, y)
        } else if line == 1 {
            (x, i)
        } else {
            (block_x * 3 + i % 3, block_y * 3 + i / 3)
        };
        proof {
            lemma_line_cell(c, scan_line_kind(line as int), i as int);
            assert(line_cell(c, scan_line_kind(line as int), i as int) == 9 * cy + cx);
        }
        if (cx != x || cy != y) && redoku.get(cx, cy).is_none() {
            let current = redoku.calculate_possible_values(cx, cy);
            let len = current.len();
            proof {
                if current@ == pool@ {
                    current.lemma_ext(&pool);
                }
            }
            if current.is_subset(&pool) && len > 1 {
                sharing = sharing + 1;
                if pool.len() == 3 {
                    not_a_pair = true;
                }
            } else if pool.is_subset(&current) && current != pool && len == 3 {
                pool = current;
                sharing = sharing + 1;
                not_a_pair = true;
            }
            empty = empty + 1;
        }
        i = i + 1;
    }
    LineScan { pool, sharing, empty, not_a_pair }
}

/// For each empty cell with two or three candidates, visited column by column, looks in
/// its row, its column and its block for a pair or a triple of cells sharing those
/// candidates, and adds them as temporary digits to that line and to the cell's block.
/// Returns whether a pair and whether a triple was found; the cells are not touched.
pub fn try_look_for_twins_triplets(redoku: &mut Redoku) -> (r: (bool, bool))
    requires
        old(redoku).wf(),
    ensures
        final(redoku).wf(),
        final(redoku).cells() == old(redoku).cells(),
        final(redoku).temps().len() >= old(redoku).temps().len(),
        (r.0 || r.1) == (final(redoku).temps().len() > old(redoku).temps().len()),
        final(redoku).temps().subrange(0, old(redoku).temps().len() as int) == old(redoku).temps(),
        !(r.0 || r.1) ==> final(redoku).same_state(&*old(redoku)),
        (r.0 || r.1) == has_group(*old(redoku)),
        forall|g: int| 0 <= g < 27 ==> #[trigger] old(redoku).grid(g).subset_of(final(redoku).grid(g)),
        forall|i: int|
            0 <= i < 81 ==> #[trigger] candidates(*final(redoku), i).subset_of(
                candidates(*old(redoku), i),
            ),
{
    let mut twins = false;
    let mut triplets = false;
    let mut x: u8 = 0;
    while x < 9
        invariant
            x <= 9,
            redoku.wf(),
            redoku.cells() == old(redoku).cells(),
            redoku.temps().len() >= old(redoku).temps().len(),
            (twins || triplets) == (redoku.temps().len() > old(redoku).temps().len()),
            redoku.temps().subrange(0, old(redoku).temps().len() as int) == old(redoku).temps(),
            forall|g: int| 0 <= g < 27 ==> #[trigger] old(redoku).grid(g).subset_of(redoku.grid(g)),
            old(redoku).wf(),
            (twins || triplets) ==> has_group(*old(redoku)),
            !(twins || triplets) ==> forall|j: int, l: int|
                0 <= j < 81 && 0 <= l < 3 && visited_before(j, x as int, 0) ==> !(old(
                    redoku,
                ).cells()[j] is None && 2 <= candidates(*old(redoku), j).len() <= 3
                    && #[trigger] finds_group(*old(redoku), j, l)),
        decreases 9 - x,
    {
        let mut y: u8 = 0;
        while y < 9
            invariant
                x < 9,
                y <= 9,
                redoku.wf(),
                redoku.cells() == old(redoku).cells(),
                redoku.temps().len() >= old(redoku).temps().len(),
                (twins || triplets) == (redoku.temps().len() > old(redoku).temps().len()),
                redoku.temps().subrange(0, old(redoku).temps().len() as int) == old(redoku).temps(),
                forall|g: int| 0 <= g < 27 ==> #[trigger] old(redoku).grid(g).subset_of(redoku.grid(g)),
                old(redoku).wf(),
                (twins || triplets) ==> has_group(*old(redoku)),
                !(twins || triplets) ==> forall|j: int, l: int|
                    0 <= j < 81 && 0 <= l < 3 && visited_before(j, x as int, y as int) ==> !(old(
                        redoku,
                    ).cells()[j] is None && 2 <= candidates(*old(redoku), j).len() <= 3
                        && #[trigger] finds_group(*old(redoku), j, l)),
            decreases 9 - y,
        {
            let ghost i = 9 * y + x;
            let ghost was_found = twins || triplets;
            proof {
                lemma_cell_coords(x as int, y as int);
                if !was_found {
                    assert(redoku.temps() =~= old(redoku).temps());
                    lemma_state_determined(*redoku, *old(redoku));
                }
            }
            if redoku.get(x, y).is_none() {
                let values = redoku.calculate_possible_values(x, y);
                let len = values.len();
                if 2 <= len && len <= 3 {
                    let block = Grid::Block(3 * (y / 3) + x / 3);
                    let mut line: u8 = 0;
                    while line < 3
                        invariant
                            x < 9,
                            y < 9,
                            line <= 3,
                            block.valid(),
                            values.wf(),
                            redoku.wf(),
                            redoku.cells() == old(redoku).cells(),
                            redoku.temps().len() >= old(redoku).temps().len(),
                            (twins || triplets) == (redoku.temps().len() > old(
                                redoku,
                            ).temps().len()),
                            redoku.temps().subrange(0, old(redoku).temps().len() as int) == old(
                                redoku,
                            ).temps(),
                            forall|g: int|
                                0 <= g < 27 ==> #[trigger] old(redoku).grid(g).subset_of(
                                    redoku.grid(g),
                                ),
                            old(redoku).wf(),
                            i == 9 * y + x,
                            0 <= i < 81,
                            (twins || triplets) ==> has_group(*old(redoku)),
                            !(twins || triplets) ==> !was_found,
                            !was_found ==> values@ == candidates(*old(redoku), i)
                                && old(redoku).cells()[i] is None,
                            2 <= values@.len() <= 3,
                            !(twins || triplets) ==> redoku.temps() == old(redoku).temps(),
                            !(twins || triplets) ==> forall|l: int|
                                0 <= l < line ==> !#[trigger] finds_group(*old(redoku), i, l),
                        decreases 3 - line,
                    {
                        let ghost found_before = twins || triplets;
                        proof {
                            if !found_before {
                                lemma_state_determined(*redoku, *old(redoku));
                                lemma_scan_same_state(
                                    *redoku,
                                    *old(redoku),
                                    i,
                                    line as int,
                                    9,
                                    values@,
                                );
                            }
                        }
                        let scan = scan_line(redoku, x, y, line, values);
                        if scan.empty > scan.sharing {
                            let pair = scan.sharing == 2 && !scan.not_a_pair;
                            let triple = !pair && scan.sharing == 3;
                            if pair || triple {
                                let ghost before = *redoku;
                                if line == 0 {
                                    redoku.insert_temporary_values(Grid::Row(y), scan.pool);
                                } else if line == 1 {
                                    redoku.insert_temporary_values(Grid::Column(x), scan.pool);
                                }
                                redoku.insert_temporary_values(block, scan.pool);
                                proof {
                                    let n = old(redoku).temps().len() as int;
                                    assert(redoku.temps().subrange(0, n) =~= old(redoku).temps());
                                    assert forall|g: int| 0 <= g < 27 implies #[trigger] before.grid(
                                        g,
                                    ).subset_of(redoku.grid(g)) by {}
                                    assert forall|g: int| 0 <= g < 27 implies #[trigger] old(
                                        redoku,
                                    ).grid(g).subset_of(redoku.grid(g)) by {
                                        assert(old(redoku).grid(g).subset_of(before.grid(g)));
                                        assert(before.grid(g).subset_of(redoku.grid(g)));
                                    }
                                }
                                proof {
                                    if !found_before {
                                        assert(finds_group(*old(redoku), i, line as int));
                                        assert(0 <= line < 3);
                                        assert(2 <= candidates(*old(redoku), i).len() <= 3);
                                        assert(has_group(*old(redoku)));
                                    }
                                }
                                if pair {
                                    twins = true;
                                } else {
                                    triplets = true;
                                }
                            }
                        }
                        line = line + 1;
                    }
                }
            }
            proof {
                if !(twins || triplets) {
                    assert forall|j: int, l: int|
                        0 <= j < 81 && 0 <= l < 3 && visited_before(j, x as int, y + 1) implies !(old(
                            redoku,
                        ).cells()[j] is None && 2 <= candidates(*old(redoku), j).len() <= 3
                            && #[trigger] finds_group(*old(redoku), j, l)) by {
                        lemma_unit_bounds(j);
                        if j != i {
                            assert(visited_before(j, x as int, y as int));
                        }
                    }
                }
            }
            y = y + 1;
        }
        proof {
            if !(twins || triplets) {
                assert forall|j: int, l: int|
                    0 <= j < 81 && 0 <= l < 3 && visited_before(j, x + 1, 0) implies !(old(
                        redoku,
                    ).cells()[j] is None && 2 <= candidates(*old(redoku), j).len() <= 3
                        && #[trigger] finds_group(*old(redoku), j, l)) by {
                    lemma_unit_bounds(j);
                    assert(visited_before(j, x as int, 9));
                }
            }
        }
        x = x + 1;
    }
    proof {
        if !(twins || triplets) {
            assert forall|j: int, l: int|
                0 <= j < 81 && 0 <= l < 3 implies !(old(redoku).cells()[j] is None && 2
                    <= candidates(*old(redoku), j).len() <= 3 && #[trigger] finds_group(
                    *old(redoku),
                    j,
                    l,
                )) by {
                lemma_unit_bounds(j);
                assert(visited_before(j, 9, 0));
            }
        }
        if !(twins || triplets) {
            assert(redoku.temps() =~= old(redoku).temps());
            lemma_state_determined(*redoku, *old(redoku));
        }
        assert forall|i: int| 0 <= i < 81 implies #[trigger] candidates(*redoku, i).subset_of(
            candidates(*old(redoku), i),
        ) by {
            lemma_unit_bounds(i);
            assert(old(redoku).grid(col_of(i)).subset_of(redoku.grid(col_of(i))));
            assert(old(redoku).grid(9 + row_of(i)).subset_of(redoku.grid(9 + row_of(i))));
            assert(old(redoku).grid(18 + block_of(i)).subset_of(redoku.grid(18 + block_of(i))));
        }
    }
    (twins, triplets)
}

/// The longest run of technique rounds a grading simulation may take before it counts the
/// board as needing brute force.
const TECHNIQUE_ROUNDS: u32 = 1000;

/// Whether at most `n` elimination passes, each of them filling some cell, fill the board.
pub open spec fn elim_fills(cells: Seq<Option<Value>>, temps: Seq<(Grid, ValueSet)>, n: int) -> bool
    decreases n,
{
    if n <= 0 {
        false
    } else {
        let next = elim_from(cells, temps, 0);
        next != cells && (full(next) || elim_fills(next, temps, n - 1))
    }
}

/// Whether a board is stuck for the simulation: no technique changes it and it has no
/// temporary entries to roll back.
spec fn stuck(b: Redoku) -> bool {
    !has_forced_cell(b) && !has_lone_digit(b) && !has_group(b) && b.temps().len() == 0
}

/// Boards with the same cells, sets and temporary entries are stuck alike.
proof fn lemma_stuck_same_state(a: Redoku, b: Redoku)
    requires
        a.same_state(&b),
    ensures
        stuck(a) == stuck(b),
        has_forced_cell(a) == has_forced_cell(b),
        has_lone_digit(a) == has_lone_digit(b),
        has_group(a) == has_group(b),
{
    assert forall|i: int| 0 <= i < 81 implies #[trigger] a.forbidden(i) == b.forbidden(i) by {}
    if has_forced_cell(a) {
        let i = choose|i: int| 0 <= i < 81 && a.cells()[i] is None && #[trigger] a.forbidden(i).len() == 8;
        assert(b.forbidden(i).len() == 8);
    }
    if has_forced_cell(b) {
        let i = choose|i: int| 0 <= i < 81 && b.cells()[i] is None && #[trigger] b.forbidden(i).len() == 8;
        assert(a.forbidden(i).len() == 8);
    }
    if has_lone_digit(a) {
        let (i, l) = choose|i: int, line: int|
            0 <= i < 81 && 0 <= line < 3 && a.cells()[i] is None && #[trigger] lone_in_line(a, i, line).len() == 1;
        lemma_lone_same_state(a, b, i, l);
        assert(lone_in_line(b, i, l).len() == 1);
    }
    if has_lone_digit(b) {
        let (i, l) = choose|i: int, line: int|
            0 <= i < 81 && 0 <= line < 3 && b.cells()[i] is None && #[trigger] lone_in_line(b, i, line).len() == 1;
        lemma_lone_same_state(a, b, i, l);
        assert(lone_in_line(a, i, l).len() == 1);
    }
    if has_group(a) {
        let (i, l) = choose|i: int, line: int|
            0 <= i < 81 && 0 <= line < 3 && a.cells()[i] is None && 2 <= candidates(a, i).len() <= 3
                && #[trigger] finds_group(a, i, line);
        lemma_scan_same_state(a, b, i, l, 9, candidates(a, i));
        assert(candidates(a, i) == candidates(b, i));
        assert(finds_group(b, i, l));
    }
    if has_group(b) {
        let (i, l) = choose|i: int, line: int|
            0 <= i < 81 && 0 <= line < 3 && b.cells()[i] is None && 2 <= candidates(b, i).len() <= 3
                && #[trigger] finds_group(b, i, line);
        lemma_scan_same_state(a, b, i, l, 9, candidates(b, i));
        assert(candidates(a, i) == candidates(b, i));
        assert(finds_group(a, i, l));
    }
}

/// Simulates, on a copy of the board, the techniques a person would use, escalating from
/// eliminations (1) to lone rangers (2), pairs (3) and triples (4), and scores the highest
/// that contributed once the copy is filled. A board that no technique advances, or that
/// takes more rounds than allowed, scores 5. A score below 5 means the techniques filled
/// the copy with a solved grid that keeps the board's digits; on a board without temporary
/// entries the score is 1 exactly when elimination passes alone fill it.
fn score_human_solving_techniques(board: &Redoku) -> (r: u8)
    requires
        board.wf(),
    ensures
        1 <= r <= 5,
        r < 5 ==> exists|t: Seq<Option<Value>>| solved(t) && extends(board.cells(), t),
        board.temps().len() == 0 ==> (r == 1 <==> elim_fills(board.cells(), board.temps(), 81)),
{
    let ghost c0 = board.cells();
    let ghost t0 = board.temps();
    let ghost key = t0.len() == 0;
    let mut max_score: u8 = 0;
    let mut redoku = board.duplicate();
    proof {
        lemma_same_state_wf(*board, redoku);
        lemma_cells_finite(empty_set(c0));
    }
    let mut rounds: u32 = 0;
    let mut finished = false;
    while rounds < TECHNIQUE_ROUNDS
        invariant_except_break
            !finished,
        invariant
            redoku.wf(),
            max_score <= 4,
            finished ==> 1 <= max_score,
            finished ==> full(redoku.cells()),
            extends(board.cells(), redoku.cells()),
            c0 == board.cells(),
            t0 == board.temps(),
            key == (t0.len() == 0),
            rounds == 0 ==> redoku.cells() == c0 && redoku.temps() == t0 && max_score == 0
                && !finished,
            key && rounds > 0 && !finished ==> max_score >= 2 || (stuck(redoku) && !elim_fills(
                c0,
                t0,
                81,
            )),
            key && finished && max_score == 1 ==> elim_fills(c0, t0, 81),
            key && rounds > 0 && elim_fills(c0, t0, 81) ==> finished && max_score == 1,
        ensures
            rounds > 0,
        decreases TECHNIQUE_ROUNDS - rounds,
    {
        let ghost first = rounds == 0;
        proof {
            lemma_cells_finite(empty_set(redoku.cells()));
        }
        rounds = rounds + 1;
        let mut rcb_elimination = false;
        let mut passes: u8 = 0;
        let ghost mut stuck_now = false;
        while passes < 81
            invariant_except_break
                !finished,
                first && !finished ==> empty_set(redoku.cells()).len() + passes <= 81,
                key && max_score < 2 ==> passes < 81,
            invariant
                redoku.wf(),
                max_score <= 4,
                rcb_elimination ==> 1 <= max_score,
                finished ==> 1 <= max_score && full(redoku.cells()),
                extends(board.cells(), redoku.cells()),
                c0 == board.cells(),
                t0 == board.temps(),
                key == (t0.len() == 0),
                rounds > 0,
                passes <= 81,
                first ==> redoku.temps() == t0 && max_score <= 1,
                first && key && !finished ==> elim_fills(c0, t0, 81) == elim_fills(
                    redoku.cells(),
                    t0,
                    81 - passes,
                ),
                first && key && finished ==> elim_fills(c0, t0, 81) && max_score == 1,
                !first && key ==> !elim_fills(c0, t0, 81),
                !first && key && max_score < 2 ==> stuck(redoku) && !rcb_elimination && !finished,
                stuck_now ==> !finished && !has_forced_cell(redoku),
                stuck_now && first && key ==> !elim_fills(c0, t0, 81),
            ensures
                !finished && key && max_score < 2 ==> stuck_now,
                !finished ==> redoku.temps() == t0 || !first,
            decreases 81 - passes,
        {
            passes = passes + 1;
            let ghost before = redoku;
            if try_row_col_block_elimination(&mut redoku) {
                proof {
                    lemma_fill_shrinks_empty(before.cells(), redoku.cells());
                    if !first && key && max_score < 2 {
                        assert(!has_forced_cell(before));
                    }
                }
                rcb_elimination = true;
                if max_score < 1 {
                    max_score = 1;
                }
                if redoku.is_completed_from(0) {
                    proof {
                        if first && key {
                            assert(elim_fills(before.cells(), t0, 81 - (passes - 1)));
                        }
                    }
                    finished = true;
                    break;
                }
                proof {
                    if first {
                        if passes == 81 {
                            lemma_no_empty_full(redoku.cells());
                        }
                        if key {
                            assert(elim_fills(before.cells(), t0, 81 - (passes - 1)) == elim_fills(
                                redoku.cells(),
                                t0,
                                81 - passes,
                            ));
                        }
                    }
                }
            } else {
                proof {
                    stuck_now = true;
                    assert(redoku.cells() == before.cells());
                    lemma_state_determined(redoku, before);
                    lemma_stuck_same_state(redoku, before);
                    if first && key {
                        assert(!elim_fills(before.cells(), t0, 81 - (passes - 1)));
                    }
                }
                break;
            }
        }
        if finished {
            break;
        }
        let ghost s1 = redoku;
        let lone_ranger = try_lone_ranger(&mut redoku);
        if lone_ranger {
            if max_score < 2 {
                max_score = 2;
            }
            if redoku.is_completed_from(0) {
                finished = true;
                break;
            }
        }
        let ghost s2 = redoku;
        let (twins, triplets) = try_look_for_twins_triplets(&mut redoku);
        if twins {
            if max_score < 3 {
                max_score = 3;
            }
            if redoku.is_completed_from(0) {
                finished = true;
                break;
            }
        }
        if triplets {
            if max_score < 4 {
                max_score = 4;
            }
            if redoku.is_completed_from(0) {
                finished = true;
                break;
            }
        }
        proof {
            if key && max_score < 2 {
                lemma_state_determined(s2, s1);
                lemma_state_determined(redoku, s2);
                lemma_stuck_same_state(s1, s2);
                lemma_stuck_same_state(redoku, s2);
                assert(stuck(redoku));
            }
        }
        if !rcb_elimination && !lone_ranger && !twins && !triplets {
            if redoku.temporary_values() > 0 {
                redoku.remove_temporary_values();
                continue;
            }
            break;
        }
    }
    proof {
        if finished {
            assert(solved(redoku.cells()));
        }
    }
    if finished {
        max_score
    } else {
        5
    }
}


/// Grading a board by how hard it is to solve.
pub trait RedokuGrader {
    /// Whether the board may be graded.
    spec fn gradable(&self) -> bool;

    /// The difficulty of the board, or why it cannot be graded.
    fn grade_difficulty(&self) -> Result<Difficulty, GradeError>
        requires
            self.gradable(),
    ;
}

impl RedokuGrader for Redoku {
    open spec fn gradable(&self) -> bool {
        self.wf()
    }

    /// Combines four scores from 1 to 5 (givens, the sparsest row or column, the techniques
    /// a person needs, search steps) with weights 0.4, 0.2, 0.2 and 0.2.
    fn grade_difficulty(&self) -> (r: Result<Difficulty, GradeError>)
        ensures
            (r == Err::<Difficulty, GradeError>(GradeError::TooFewGivens)) <==> givens_score(
                81 - self.empty_count(),
            ) is None,
            (r == Err::<Difficulty, GradeError>(GradeError::NoUniqueSolution)) <==> (givens_score(
                81 - self.empty_count(),
            ) is Some && !unique_completion(*self)),
            r matches Ok(d) ==> exists|s3: int|
                1 <= s3 <= 5 && (self.temps().len() == 0 ==> (s3 == 1 <==> elim_fills(
                    self.cells(),
                    self.temps(),
                    81,
                ))) && d == tier(
                    #[trigger] weighted_score(
                        givens_score(81 - self.empty_count())->0 as int,
                        density_score(min_line(*self)) as int,
                        s3,
                        search_score(search_steps(*self, true)) as int,
                    ),
                ),
    {
        let s1 = match score_cell_total_count(self) {
            Some(s) => s,
            None => {
                return Err(GradeError::TooFewGivens);
            },
        };
        let s2 = score_cell_row_column_count(self);
        let s3 = score_human_solving_techniques(self);
        let s4 = match score_search_iterations(self) {
            Some(s) => s,
            None => {
                return Err(GradeError::NoUniqueSolution);
            },
        };
        let d = grade_from_scores(s1, s2, s3, s4);
        proof {
            assert(1 <= s3 <= 5 && (self.temps().len() == 0 ==> (s3 == 1 <==> elim_fills(
                self.cells(),
                self.temps(),
                81,
            ))) && d == tier(
                weighted_score(
                    givens_score(81 - self.empty_count())->0 as int,
                    density_score(min_line(*self)) as int,
                    s3 as int,
                    search_score(search_steps(*self, true)) as int,
                ),
            ));
        }
        Ok(d)
    }
}

} // verus!
