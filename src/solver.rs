use vstd::prelude::*;

use crate::redoku::{
    block_of, col_of, derived, full, holds, in_grid, lemma_derived_update, lemma_in_grid_same_unit,
    lemma_same_state_wf, lemma_state_determined, lemma_unit_bounds, opt_digits, overlay, row_of, same_unit, solved, Grid, Redoku,
};
use crate::grader::{cells_forbidden, lemma_forbidden_cells, lemma_value_with_digit, value_with_digit};
use crate::value::{all_digits, digit, lemma_digit_injective, lemma_digit_set_bounds, Value, ValueSet};

verus! {

/// Whether `t` completes `b`: every cell is filled, the digits of `b` are kept, and each
/// digit written into an empty cell is allowed there by the sets of `b` and differs from
/// the digits written into the other empty cells of its row, column and block.
pub open spec fn is_completion(b: Redoku, t: Seq<Option<Value>>) -> bool {
    &&& full(t)
    &&& forall|i: int| 0 <= i < 81 && (#[trigger] b.cells()[i]) is Some ==> t[i] == b.cells()[i]
    &&& forall|i: int|
        0 <= i < 81 && (#[trigger] b.cells()[i]) is None ==> !b.forbidden(i).contains(
            digit(t[i]->0),
        )
    &&& forall|i: int, j: int|
        0 <= i < 81 && 0 <= j < 81 && i != j && same_unit(i, j) && (#[trigger] b.cells()[i]) is None
            && (#[trigger] b.cells()[j]) is None ==> t[i] != t[j]
}

/// `b` has at least one completion.
pub open spec fn has_completion(b: Redoku) -> bool {
    exists|t: Seq<Option<Value>>| is_completion(b, t)
}

/// `b` has exactly one completion.
pub open spec fn unique_completion(b: Redoku) -> bool {
    exists|t: Seq<Option<Value>>|
        is_completion(b, t) && forall|u: Seq<Option<Value>>| is_completion(b, u) ==> u == t
}

/// Whether grid `a` comes before grid `b` when they are compared cell by cell in row-major
/// order, the digit One first and Nine last.
pub open spec fn precedes(a: Seq<Option<Value>>, b: Seq<Option<Value>>) -> bool {
    exists|k: int|
        0 <= k < 81 && (forall|m: int| 0 <= m < k ==> a[m] == b[m]) && digit(#[trigger] a[k]->0)
            < digit(b[k]->0)
}

/// The outcome of a search below some cell.
enum Solution {
    Complete(Redoku, u32),
    Incomplete(u32),
    NonUnique,
}

/// `a + b`, held at the largest 32-bit value.
pub open spec fn sat_add(a: int, b: int) -> int {
    if a + b > u32::MAX {
        u32::MAX as int
    } else {
        a + b
    }
}

/// Every cell from `pos` on holds a digit.
pub open spec fn filled_from(cells: Seq<Option<Value>>, pos: int) -> bool {
    forall|j: int| pos <= j < 81 ==> #[trigger] cells[j] is Some
}

/// The outcome of a search from cell `pos` on a board with cells `cells` and temporary
/// entries `temps`, as a kind (0 complete, 1 incomplete, 2 not unique) and a step count: one
/// step for each digit placed in an empty cell and searched below, counts of sibling
/// searches added, and no more steps counted at a cell once a first completion is found
/// below it in a search for a unique one.
pub open spec fn search_steps_at(
    cells: Seq<Option<Value>>,
    temps: Seq<(Grid, ValueSet)>,
    pos: int,
    unique: bool,
) -> (int, int)
    decreases 81 - pos, 10int,
{
    if pos < 0 || pos >= 81 {
        (1, 0)
    } else {
        digit_loop(cells, temps, pos, unique, 0, Some(0int), false, 0)
    }
}

/// The rest of a search at cell `pos` from digit `i` on, with the steps counted so far
/// (none once a completion was found), whether a completion was found and its count.
pub open spec fn digit_loop(
    cells: Seq<Option<Value>>,
    temps: Seq<(Grid, ValueSet)>,
    pos: int,
    unique: bool,
    i: int,
    counter: Option<int>,
    found: bool,
    sol_count: int,
) -> (int, int)
    decreases 81 - pos, 9 - i,
{
    let filled = cells[pos] is Some;
    let n: int = if filled {
        1
    } else {
        9
    };
    if i < 0 || i >= n || pos < 0 || pos >= 81 {
        if found {
            (0, sol_count)
        } else {
            (
                1,
                match counter {
                    Some(k) => k,
                    None => 0,
                },
            )
        }
    } else if !filled && cells_forbidden(cells, temps, pos).contains(i as nat) {
        digit_loop(cells, temps, pos, unique, i + 1, counter, found, sol_count)
    } else {
        let child = if filled {
            cells
        } else {
            cells.update(pos, Some(value_with_digit(i as nat)))
        };
        let counter1 = if !filled_from(child, pos) && !filled {
            match counter {
                Some(k) => Some(sat_add(k, 1)),
                None => None,
            }
        } else {
            counter
        };
        let res = if filled_from(child, pos) {
            (0int, 0int)
        } else {
            search_steps_at(child, temps, pos + 1, unique)
        };
        if res.0 == 2 {
            (2, 0)
        } else if res.0 == 0 {
            let total = match counter1 {
                Some(k) => sat_add(res.1, k),
                None => res.1,
            };
            if !unique {
                (0, total)
            } else if found {
                (2, 0)
            } else {
                digit_loop(cells, temps, pos, unique, i + 1, None, true, total)
            }
        } else {
            digit_loop(
                cells,
                temps,
                pos,
                unique,
                i + 1,
                match counter1 {
                    Some(k) => Some(sat_add(k, res.1)),
                    None => None,
                },
                found,
                sol_count,
            )
        }
    }
}

/// The number of steps a search of `b` takes.
pub open spec fn search_steps(b: Redoku, unique: bool) -> int {
    search_steps_at(b.cells(), b.temps(), 0, unique).1
}

/// The kind and count of a search outcome.
spec fn outcome(r: Solution) -> (int, int) {
    match r {
        Solution::Complete(_, c) => (0, c as int),
        Solution::Incomplete(c) => (1, c as int),
        Solution::NonUnique => (2, 0),
    }
}

spec fn opt_count(c: Option<u32>) -> Option<int> {
    match c {
        Some(k) => Some(k as int),
        None => None,
    }
}

/// What a search of `b` may report.
spec fn search_result(b: Redoku, unique: bool, r: Solution) -> bool {
    match r {
        Solution::Complete(s, _) => s.wf() && s.temps() == b.temps() && is_completion(b, s.cells()) && (unique ==> forall|
            u: Seq<Option<Value>>,
        | is_completion(b, u) ==> u == s.cells()) && (!unique ==> forall|u: Seq<Option<Value>>|
            is_completion(b, u) ==> !precedes(u, s.cells())),
        Solution::Incomplete(_) => forall|u: Seq<Option<Value>>| !is_completion(b, u),
        Solution::NonUnique => unique && exists|t1: Seq<Option<Value>>, t2: Seq<Option<Value>>|
            t1 != t2 && is_completion(b, t1) && is_completion(b, t2),
    }
}

/// Placing `v` in the empty cell `i` adds its digit to the sets of the cells sharing a unit
/// with `i`, and to those alone.
proof fn lemma_forbidden_after_place(b0: Redoku, b1: Redoku, i: int, v: Value)
    requires
        b0.wf(),
        b1.wf(),
        0 <= i < 81,
        b0.cells()[i] is None,
        b1.cells() == b0.cells().update(i, Some(v)),
        b1.temps() == b0.temps(),
    ensures
        forall|j: int|
            0 <= j < 81 ==> #[trigger] b1.forbidden(j) == b0.forbidden(j).union(
                if same_unit(i, j) {
                    set![digit(v)]
                } else {
                    Set::empty()
                },
            ),
{
    assert forall|g: int| 0 <= g < 27 implies #[trigger] b1.grid(g) == (if in_grid(i, g) {
        b0.grid(g).insert(digit(v))
    } else {
        b0.grid(g)
    }) by {
        lemma_derived_update(b0.cells(), i, Some(v), g);
        assert(b1.grid(g) == derived(b1.cells(), g).union(overlay(b1.temps(), g)));
        assert(b0.grid(g) == derived(b0.cells(), g).union(overlay(b0.temps(), g)));
        assert(opt_digits(b0.cells()[i]) =~= Set::<nat>::empty());
        if in_grid(i, g) {
            assert(b1.grid(g) =~= b0.grid(g).insert(digit(v)));
        }
    }
    assert forall|j: int| 0 <= j < 81 implies #[trigger] b1.forbidden(j) == b0.forbidden(j).union(
        if same_unit(i, j) {
            set![digit(v)]
        } else {
            Set::empty()
        },
    ) by {
        lemma_unit_bounds(j);
        lemma_in_grid_same_unit(j, i, 0);
        lemma_in_grid_same_unit(j, i, col_of(j));
        lemma_in_grid_same_unit(j, i, 9 + row_of(j));
        lemma_in_grid_same_unit(j, i, 18 + block_of(j));
        lemma_in_grid_same_unit(i, j, 0);
        assert(b1.forbidden(j) =~= b0.forbidden(j).union(
            if same_unit(i, j) {
                set![digit(v)]
            } else {
                Set::empty()
            },
        ));
    }
}

/// The completions of a board after `v` is placed in the empty cell `i` are the completions
/// of the board before that hold `v` at `i`.
pub proof fn lemma_place_completions(b0: Redoku, b1: Redoku, i: int, v: Value)
    requires
        b0.wf(),
        b1.wf(),
        0 <= i < 81,
        b0.cells()[i] is None,
        b1.cells() == b0.cells().update(i, Some(v)),
        b1.temps() == b0.temps(),
        !b0.forbidden(i).contains(digit(v)),
    ensures
        forall|t: Seq<Option<Value>>|
            #[trigger] is_completion(b1, t) <==> is_completion(b0, t) && t[i] == Some(v),
{
    lemma_forbidden_after_place(b0, b1, i, v);
    let c0 = b0.cells();
    let c1 = b1.cells();
    assert forall|t: Seq<Option<Value>>| #[trigger] is_completion(b1, t) implies is_completion(b0, t)
        && t[i] == Some(v) by {
        assert(c1[i] is Some);
        assert forall|j: int| 0 <= j < 81 && (#[trigger] c0[j]) is Some implies t[j] == c0[j] by {
            assert(c1[j] == c0[j]);
        }
        assert forall|j: int| 0 <= j < 81 && (#[trigger] c0[j]) is None implies !b0.forbidden(
            j,
        ).contains(digit(t[j]->0)) by {
            if j != i {
                assert(c1[j] is None);
                assert(b1.forbidden(j).contains(digit(t[j]->0)) ==> true);
            }
        }
        assert forall|j: int, k: int|
            0 <= j < 81 && 0 <= k < 81 && j != k && same_unit(j, k) && (#[trigger] c0[j]) is None
                && (#[trigger] c0[k]) is None implies t[j] != t[k] by {
            if j == i {
                assert(c1[k] is None);
                lemma_in_grid_same_unit(j, k, 0);
                lemma_in_grid_same_unit(k, j, 0);
                assert(same_unit(i, k));
                assert(b1.forbidden(k).contains(digit(v)));
            } else if k == i {
                assert(c1[j] is None);
                assert(b1.forbidden(j).contains(digit(v)));
            } else {
                assert(c1[j] is None && c1[k] is None);
            }
        }
    }
    assert forall|t: Seq<Option<Value>>| is_completion(b0, t) && t[i] == Some(v) implies #[trigger] is_completion(
        b1,
        t,
    ) by {
        assert forall|j: int| 0 <= j < 81 && (#[trigger] c1[j]) is Some implies t[j] == c1[j] by {
            if j != i {
                assert(c0[j] == c1[j]);
            }
        }
        assert forall|j: int| 0 <= j < 81 && (#[trigger] c1[j]) is None implies !b1.forbidden(
            j,
        ).contains(digit(t[j]->0)) by {
            assert(j != i);
            assert(c0[j] is None);
            if same_unit(i, j) {
                assert(t[i] != t[j]);
                assert(t[j] is Some);
                lemma_digit_injective(t[j]->0, v);
            }
        }
        assert forall|j: int, k: int|
            0 <= j < 81 && 0 <= k < 81 && j != k && same_unit(j, k) && (#[trigger] c1[j]) is None
                && (#[trigger] c1[k]) is None implies t[j] != t[k] by {
            assert(c0[j] is None && c0[k] is None);
        }
    }
}

/// A filled board is its own and only completion.
pub proof fn lemma_full_board(b: Redoku)
    requires
        b.wf(),
        full(b.cells()),
    ensures
        is_completion(b, b.cells()),
        forall|u: Seq<Option<Value>>| is_completion(b, u) ==> u == b.cells(),
{
    assert forall|u: Seq<Option<Value>>| is_completion(b, u) implies u == b.cells() by {
        assert forall|i: int| 0 <= i < 81 implies u[i] == b.cells()[i] by {
            assert(b.cells()[i] is Some);
        }
        assert(u =~= b.cells());
    }
}


impl Redoku {
    /// Whether every cell from `pos` on holds a digit.
    pub(crate) fn is_completed_from(&self, pos: usize) -> (r: bool)
        requires
            self.wf(),
            pos <= 81,
        ensures
            r == forall|j: int| pos <= j < 81 ==> #[trigger] self.cells()[j] is Some,
    {
        let mut j = pos;
        while j < 81
            invariant
                self.wf(),
                pos <= j <= 81,
                forall|k: int| pos <= k < j ==> #[trigger] self.cells()[k] is Some,
            decreases 81 - j,
        {
            proof {
                lemma_unit_bounds(j as int);
            }
            if self.get((j % 9) as u8, (j / 9) as u8).is_none() {
                return false;
            }
            j = j + 1;
        }
        true
    }
}

/// Backtracking search from cell `pos` on, every cell before `pos` being filled. Digits are
/// tried in increasing order; each placement is undone before the next is tried, so the
/// board ends as it began. The count adds one for each digit placed in an empty cell and
/// searched below.
fn depth_first_search(redoku: &mut Redoku, pos: usize, unique: bool) -> (r: Solution)
    requires
        old(redoku).wf(),
        pos < 81,
        forall|j: int| 0 <= j < pos ==> #[trigger] old(redoku).cells()[j] is Some,
    ensures
        final(redoku).wf(),
        final(redoku).same_state(old(redoku)),
        search_result(*old(redoku), unique, r),
        outcome(r) == search_steps_at(old(redoku).cells(), old(redoku).temps(), pos as int, unique),
    decreases 81 - pos,
{
    let ghost b0 = *redoku;
    proof {
        lemma_unit_bounds(pos as int);
    }
    let x = (pos % 9) as u8;
    let y = (pos / 9) as u8;
    let filled = redoku.get(x, y).is_some();
    let n: u8 = if filled {
        1
    } else {
        9
    };
    let mut counter: Option<u32> = Some(0);
    let mut solution: Option<Redoku> = None;
    let mut solution_count: u32 = 0;
    let mut i: u8 = 0;
    let ghost t0 = b0.temps();
    let ghost c0 = b0.cells();
    proof {
        assert(search_steps_at(c0, t0, pos as int, unique) == digit_loop(
            c0,
            t0,
            pos as int,
            unique,
            0,
            Some(0int),
            false,
            0,
        ));
    }
    while i < n
        invariant
            redoku.wf(),
            redoku.same_state(&b0),
            b0 == *old(redoku),
            b0.wf(),
            pos < 81,
            x as int == col_of(pos as int),
            y as int == row_of(pos as int),
            pos == 9 * y + x,
            x < 9,
            y < 9,
            forall|j: int| 0 <= j < pos ==> #[trigger] b0.cells()[j] is Some,
            filled == b0.cells()[pos as int] is Some,
            n == (if filled {
                1u8
            } else {
                9u8
            }),
            i <= n,
            !unique ==> solution is None,
            i == 0 ==> solution is None,
            t0 == b0.temps(),
            c0 == b0.cells(),
            search_steps_at(c0, t0, pos as int, unique) == digit_loop(
                c0,
                t0,
                pos as int,
                unique,
                i as int,
                opt_count(counter),
                solution is Some,
                solution_count as int,
            ),
            solution matches Some(s) ==> s.wf() && s.temps() == b0.temps() && is_completion(b0, s.cells()) && (!filled
                ==> digit(s.cells()[pos as int]->0) < i),
            forall|t: Seq<Option<Value>>|
                #![trigger is_completion(b0, t)]
                is_completion(b0, t) && (if filled {
                    i > 0
                } else {
                    digit(t[pos as int]->0) < i
                }) ==> (solution matches Some(s) && t == s.cells()),
        decreases n - i,
    {
        let v = Value::from_u8(i);
        if !filled {
            if !redoku.place_if_valid(x, y, Some(v)) {
                proof {
                    assert forall|t: Seq<Option<Value>>| #[trigger] is_completion(b0, t) implies t[pos as int]
                        != Some(v) by {
                        assert(b0.cells()[pos as int] is None);
                    }
                    assert forall|t: Seq<Option<Value>>|
                        #[trigger] is_completion(b0, t) && digit(t[pos as int]->0) < i + 1 implies (
                        solution matches Some(s) && t == s.cells()) by {
                        assert(t[pos as int] is Some);
                        if digit(t[pos as int]->0) == i {
                            lemma_digit_injective(t[pos as int]->0, v);
                        }
                    }
                    lemma_forbidden_cells(b0, pos as int);
                    assert(cells_forbidden(c0, t0, pos as int).contains(i as nat));
                    assert(digit_loop(
                        c0,
                        t0,
                        pos as int,
                        unique,
                        i as int,
                        opt_count(counter),
                        solution is Some,
                        solution_count as int,
                    ) == digit_loop(
                        c0,
                        t0,
                        pos as int,
                        unique,
                        i as int + 1,
                        opt_count(counter),
                        solution is Some,
                        solution_count as int,
                    ));
                }
                i = i + 1;
                continue;
            }
        }
        let ghost b1 = *redoku;
        let ghost c_before = opt_count(counter);
        let ghost child = if filled {
            c0
        } else {
            c0.update(pos as int, Some(value_with_digit(i as nat)))
        };
        proof {
            lemma_value_with_digit(v);
            lemma_forbidden_cells(b0, pos as int);
            assert(b1.cells() =~= child);
            if !filled {
                assert(!cells_forbidden(c0, t0, pos as int).contains(i as nat));
            }
            if !filled {
                lemma_place_completions(b0, b1, pos as int, v);
            } else {
                assert(b1.same_state(&b0));
                assert forall|t: Seq<Option<Value>>| #[trigger] is_completion(b1, t) == is_completion(
                    b0,
                    t,
                ) by {}
            }
            assert(b1.cells()[pos as int] is Some);
        }
        let res = if redoku.is_completed_from(pos) {
            proof {
                assert forall|j: int| 0 <= j < 81 implies #[trigger] b1.cells()[j] is Some by {
                    if j < pos {
                        assert(b0.cells()[j] is Some);
                        if !filled {
                            assert(b1.cells()[j] == b0.cells()[j]);
                        }
                    }
                }
                lemma_full_board(b1);
            }
            let snapshot = redoku.duplicate();
            proof {
                lemma_same_state_wf(*redoku, snapshot);
                assert(snapshot.cells() == b1.cells());
                assert forall|u: Seq<Option<Value>>| is_completion(b1, u) implies !precedes(
                    u,
                    snapshot.cells(),
                ) by {
                    assert(u == b1.cells());
                }
            }
            proof {
                assert(filled_from(child, pos as int));
            }
            Solution::Complete(snapshot, 0)
        } else {
            if !filled {
                counter =
                match counter {
                    Some(c) => Some(c.saturating_add(1)),
                    None => None,
                };
            }
            proof {
                assert forall|j: int| 0 <= j < pos + 1 implies #[trigger] b1.cells()[j] is Some by {
                    if j < pos {
                        assert(b0.cells()[j] is Some);
                        if !filled {
                            assert(b1.cells()[j] == b0.cells()[j]);
                        }
                    }
                }
                if pos + 1 >= 81 {
                    assert(forall|j: int| pos <= j < 81 ==> #[trigger] b1.cells()[j] is Some);
                }
            }
            let deeper = depth_first_search(redoku, pos + 1, unique);
            proof {
                assert(!filled_from(child, pos as int));
                assert(outcome(deeper) == search_steps_at(child, t0, pos as int + 1, unique));
            }
            deeper
        };
        let ghost fc = filled_from(child, pos as int);
        let ghost counter1 = if !fc && !filled {
            match c_before {
                Some(k) => Some(sat_add(k, 1)),
                None => None,
            }
        } else {
            c_before
        };
        let ghost sres = if fc {
            (0int, 0int)
        } else {
            search_steps_at(child, t0, pos as int + 1, unique)
        };
        let ghost rest = digit_loop(
            c0,
            t0,
            pos as int,
            unique,
            i as int,
            c_before,
            solution is Some,
            solution_count as int,
        );
        proof {
            assert(opt_count(counter) == counter1);
            assert(outcome(res) == sres);
        }
        proof {
            assert(search_result(b1, unique, res));
        }
        // put the board back as it was before this digit
        if !filled {
            redoku.place_if_valid(x, y, None);
            proof {
                assert(redoku.cells() =~= b0.cells());
                lemma_state_determined(*redoku, b0);
            }
        }
        proof {
            if filled {
                assert(redoku.same_state(&b0));
            }
        }
        match res {
            Solution::NonUnique => {
                proof {
                    let (t1, t2) = choose|t1: Seq<Option<Value>>, t2: Seq<Option<Value>>|
                        t1 != t2 && is_completion(b1, t1) && is_completion(b1, t2);
                    assert(is_completion(b0, t1) && is_completion(b0, t2));
                    assert(rest == (2int, 0int));
                }
                return Solution::NonUnique;
            },
            Solution::Complete(s, c) => {
                proof {
                    assert(is_completion(b1, s.cells()));
                    assert(is_completion(b0, s.cells()));
                    if !unique {
                        assert forall|u: Seq<Option<Value>>| is_completion(b0, u) implies !precedes(
                            u,
                            s.cells(),
                        ) by {
                            if precedes(u, s.cells()) {
                                let k = choose|k: int|
                                    0 <= k < 81 && (forall|m: int| 0 <= m < k ==> u[m] == s.cells()[m])
                                        && digit(#[trigger] u[k]->0) < digit(s.cells()[k]->0);
                                if k < pos {
                                    assert(b0.cells()[k] is Some);
                                } else if k == pos {
                                    if !filled {
                                        assert(s.cells()[pos as int] == Some(v));
                                        assert(u[pos as int] is Some);
                                        assert(digit(u[pos as int]->0) < i);
                                    }
                                } else {
                                    assert(u[pos as int] == s.cells()[pos as int]);
                                    if !filled {
                                        assert(s.cells()[pos as int] == Some(v));
                                    }
                                    assert(is_completion(b1, u));
                                }
                            }
                        }
                    }
                }
                let total = match counter {
                    Some(k) => c.saturating_add(k),
                    None => c,
                };
                proof {
                    assert(total as int == match counter1 {
                        Some(k) => sat_add(sres.1, k),
                        None => sres.1,
                    });
                }
                if !unique {
                    proof {
                        assert(rest == (0int, total as int));
                    }
                    return Solution::Complete(s, total);
                }
                if solution.is_some() {
                    proof {
                        let s0 = solution->0;
                        assert(is_completion(b0, s0.cells()));
                        if !filled {
                            assert(s.cells()[pos as int] == Some(v));
                            assert(digit(s0.cells()[pos as int]->0) < i);
                            assert(s0.cells() != s.cells());
                        } else {
                            assert(i == 0);
                        }
                    }
                    proof {
                        assert(rest == (2int, 0int));
                    }
                    return Solution::NonUnique;
                }
                proof {
                    assert(rest == digit_loop(
                        c0,
                        t0,
                        pos as int,
                        unique,
                        i as int + 1,
                        None,
                        true,
                        total as int,
                    ));
                    assert forall|t: Seq<Option<Value>>|
                        #[trigger] is_completion(b0, t) && (if filled {
                            i + 1 > 0
                        } else {
                            digit(t[pos as int]->0) < i + 1
                        }) implies t == s.cells() by {
                        if filled {
                            assert(is_completion(b1, t));
                        } else if digit(t[pos as int]->0) == i {
                            assert(t[pos as int] is Some);
                            lemma_digit_injective(t[pos as int]->0, v);
                            assert(is_completion(b1, t));
                        }
                    }
                    assert(is_completion(b1, s.cells()));
                    assert(is_completion(b0, s.cells()));
                    if !filled {
                        assert(s.cells()[pos as int] == Some(v));
                        lemma_digit_injective(s.cells()[pos as int]->0, v);
                    }
                }
                solution = Some(s);
                solution_count = total;
                counter = None;
            },
            Solution::Incomplete(c) => {
                counter =
                match counter {
                    Some(k) => Some(k.saturating_add(c)),
                    None => None,
                };
                proof {
                    assert(rest == digit_loop(
                        c0,
                        t0,
                        pos as int,
                        unique,
                        i as int + 1,
                        opt_count(counter),
                        solution is Some,
                        solution_count as int,
                    ));
                    assert forall|t: Seq<Option<Value>>|
                        #[trigger] is_completion(b0, t) && (if filled {
                            i + 1 > 0
                        } else {
                            digit(t[pos as int]->0) < i + 1
                        }) implies (solution matches Some(s) && t == s.cells()) by {
                        if filled {
                            assert(is_completion(b1, t));
                        } else if digit(t[pos as int]->0) == i {
                            assert(t[pos as int] is Some);
                            lemma_digit_injective(t[pos as int]->0, v);
                            assert(is_completion(b1, t));
                        }
                    }
                }
            },
        }
        i = i + 1;
    }
    proof {
        assert forall|t: Seq<Option<Value>>| #[trigger] is_completion(b0, t) implies (
        solution matches Some(s) && t == s.cells()) by {
            if !filled {
                assert(t[pos as int] is Some);
                lemma_digit_injective(t[pos as int]->0, t[pos as int]->0);
            }
        }
    }
    proof {
        assert(i == n);
    }
    match solution {
        Some(s) => Solution::Complete(s, solution_count),
        None => {
            let total = match counter {
                Some(k) => k,
                None => 0,
            };
            Solution::Incomplete(total)
        },
    }
}


/// Searching a board for the ways to fill its empty cells.
pub trait RedokuSolver: Sized {
    /// Whether the board may be searched.
    spec fn searchable(&self) -> bool;

    /// A completion of the board and the number of search steps taken; with `unique`, only a
    /// completion that is the only one.
    fn find_solution(&self, unique: bool) -> Option<(Self, u32)>
        requires
            self.searchable(),
    ;

    /// Whether `find_solution` finds a completion.
    fn has_solution(&self, unique: bool) -> bool
        requires
            self.searchable(),
    ;
}

/// What `find_solution` returns for board `b`.
pub open spec fn solution_found(b: Redoku, unique: bool, r: Option<(Redoku, u32)>) -> bool {
    &&& r matches Some((s, _)) ==> s.wf() && s.temps() == b.temps() && is_completion(b, s.cells()) && (unique ==> forall|
        u: Seq<Option<Value>>,
    | is_completion(b, u) ==> u == s.cells())
    &&& r matches Some((s, _)) ==> (!unique ==> forall|u: Seq<Option<Value>>|
        is_completion(b, u) ==> !precedes(u, s.cells()))
    &&& r is None <==> (if unique {
        !unique_completion(b)
    } else {
        !has_completion(b)
    })
}

impl RedokuSolver for Redoku {
    open spec fn searchable(&self) -> bool {
        self.wf()
    }

    /// Searches a copy of the board; the board itself is left alone.
    fn find_solution(&self, unique: bool) -> (r: Option<(Redoku, u32)>)
        ensures
            solution_found(*self, unique, r),
            r matches Some((_, n)) ==> n == search_steps(*self, unique),
    {
        let mut redoku = self.duplicate();
        proof {
            lemma_same_state_wf(*self, redoku);
            assert forall|u: Seq<Option<Value>>| #[trigger] is_completion(redoku, u) == is_completion(
                *self,
                u,
            ) by {
                assert forall|i: int| 0 <= i < 81 implies #[trigger] redoku.forbidden(i) == self.forbidden(i) by {}
            }
        }
        let ghost r0 = redoku;
        let res = depth_first_search(&mut redoku, 0, unique);
        match res {
            Solution::Complete(s, iterations) => {
                proof {
                    assert(outcome(res) == search_steps_at(r0.cells(), r0.temps(), 0, unique));
                    assert(is_completion(r0, s.cells()));
                    assert(is_completion(*self, s.cells()));
                    assert(has_completion(*self));
                    if !unique {
                        assert forall|u: Seq<Option<Value>>| is_completion(*self, u) implies !precedes(
                            u,
                            s.cells(),
                        ) by {
                            assert(is_completion(r0, u));
                        }
                    }
                    if unique {
                        assert forall|u: Seq<Option<Value>>| is_completion(*self, u) implies u
                            == s.cells() by {
                            assert(is_completion(r0, u));
                        }
                        assert(unique_completion(*self));
                    }
                }
                Some((s, iterations))
            },
            Solution::Incomplete(_) => {
                proof {
                    assert forall|u: Seq<Option<Value>>| !is_completion(*self, u) by {
                        assert(!is_completion(r0, u));
                    }
                }
                None
            },
            Solution::NonUnique => {
                proof {
                    let (t1, t2) = choose|t1: Seq<Option<Value>>, t2: Seq<Option<Value>>|
                        t1 != t2 && is_completion(r0, t1) && is_completion(r0, t2);
                    assert(is_completion(*self, t1) && is_completion(*self, t2));
                    if unique_completion(*self) {
                        let t = choose|t: Seq<Option<Value>>|
                            is_completion(*self, t) && forall|u: Seq<Option<Value>>|
                                is_completion(*self, u) ==> u == t;
                        assert(t1 == t && t2 == t);
                    }
                }
                None
            },
        }
    }

    fn has_solution(&self, unique: bool) -> (r: bool)
        ensures
            r == (if unique {
                unique_completion(*self)
            } else {
                has_completion(*self)
            }),
    {
        match self.find_solution(unique) {
            Some(_) => true,
            None => false,
        }
    }
}


/// `t` keeps every digit of `cells`.
pub open spec fn extends(cells: Seq<Option<Value>>, t: Seq<Option<Value>>) -> bool {
    forall|i: int| 0 <= i < 81 && (#[trigger] cells[i]) is Some ==> t[i] == cells[i]
}

/// Digit `d` appears in exactly one cell of slot `g` of `t`.
pub open spec fn holds_once(t: Seq<Option<Value>>, g: int, d: nat) -> bool {
    &&& exists|i: int| 0 <= i < 81 && in_grid(i, g) && #[trigger] holds(t, i, d)
    &&& forall|i: int, j: int|
        0 <= i < 81 && 0 <= j < 81 && in_grid(i, g) && in_grid(j, g) && #[trigger] holds(t, i, d)
            && #[trigger] holds(t, j, d) ==> i == j
}

/// The cell in place `k` (0 to 8) of slot `g`.
pub open spec fn unit_cell(g: int, k: int) -> int {
    if g < 9 {
        9 * k + g
    } else if g < 18 {
        9 * (g - 9) + k
    } else {
        9 * (3 * ((g - 18) / 3) + k / 3) + 3 * ((g - 18) % 3) + k % 3
    }
}

proof fn lemma_unit_cell(g: int, k: int)
    requires
        0 <= g < 27,
        0 <= k < 9,
    ensures
        0 <= unit_cell(g, k) < 81,
        in_grid(unit_cell(g, k), g),
        forall|k2: int| 0 <= k2 < 9 && k2 != k ==> #[trigger] unit_cell(g, k2) != unit_cell(g, k),
{
    if g >= 18 {
        let b = g - 18;
        let r = 3 * (b / 3) + k / 3;
        let c = 3 * (b % 3) + k % 3;
        assert(0 <= c < 9 && 0 <= r < 9);
        assert(unit_cell(g, k) == 9 * r + c);
        assert(row_of(9 * r + c) == r && col_of(9 * r + c) == c);
        assert(block_of(unit_cell(g, k)) == b);
    }
}

/// In a solved grid every column, row and block holds each digit exactly once.
pub proof fn lemma_solved_units(t: Seq<Option<Value>>, g: int, d: nat)
    requires
        solved(t),
        0 <= g < 27,
        d < 9,
    ensures
        holds_once(t, g, d),
{
    let f = |k: int| digit(t[unit_cell(g, k)]->0);
    let dom = vstd::set_lib::set_int_range(0, 9);
    vstd::set_lib::lemma_int_range(0, 9);
    assert forall|k1: int, k2: int| dom.contains(k1) && dom.contains(k2) && #[trigger] f(k1) == #[trigger] f(
        k2,
    ) implies k1 == k2 by {
        if k1 != k2 {
            lemma_unit_cell(g, k1);
            lemma_unit_cell(g, k2);
            let i1 = unit_cell(g, k1);
            let i2 = unit_cell(g, k2);
            lemma_in_grid_same_unit(i1, i2, g);
            assert(t[i1] is Some && t[i2] is Some);
            lemma_digit_injective(t[i1]->0, t[i2]->0);
        }
    }
    let img = dom.map(f);
    vstd::set_lib::lemma_map_size(dom, img, f);
    assert forall|e: nat| img.contains(e) implies all_digits().contains(e) by {
        let k = choose|k: int| dom.contains(k) && f(k) == e;
        lemma_digit_injective(t[unit_cell(g, k)]->0, t[unit_cell(g, k)]->0);
    }
    lemma_digit_set_bounds(img);
    vstd::set_lib::lemma_subset_equality(img, all_digits());
    assert(img.contains(d));
    let k = choose|k: int| dom.contains(k) && f(k) == d;
    lemma_unit_cell(g, k);
    assert(holds(t, unit_cell(g, k), d));
    assert forall|i: int, j: int|
        0 <= i < 81 && 0 <= j < 81 && in_grid(i, g) && in_grid(j, g) && #[trigger] holds(t, i, d)
            && #[trigger] holds(t, j, d) implies i == j by {
        if i != j {
            lemma_in_grid_same_unit(i, j, g);
            lemma_digit_injective(t[i]->0, t[j]->0);
        }
    }
}

/// On a board without temporary entries, the completions are exactly the solved grids that
/// keep the board's digits.
pub proof fn lemma_completion_is_solution(b: Redoku, t: Seq<Option<Value>>)
    requires
        b.wf(),
        b.temps().len() == 0,
    ensures
        is_completion(b, t) <==> solved(t) && extends(b.cells(), t),
{
    let c = b.cells();
    assert forall|g: int| 0 <= g < 27 implies #[trigger] b.grid(g) == derived(c, g) by {
        assert(overlay(b.temps(), g) =~= Set::<nat>::empty());
        assert(b.grid(g) =~= derived(c, g));
    }
    if is_completion(b, t) {
        assert forall|i: int, j: int|
            0 <= i < 81 && 0 <= j < 81 && i != j && same_unit(i, j) && #[trigger] t[i] is Some
                && #[trigger] t[j] is Some implies t[i] != t[j] by {
            if c[i] is Some && c[j] is Some {
                assert(t[i] == c[i] && t[j] == c[j]);
            } else if c[i] is None && c[j] is Some {
                lemma_in_grid_same_unit(i, j, 0);
                lemma_unit_bounds(i);
                assert(holds(c, j, digit(t[j]->0)));
                if in_grid(j, col_of(i)) {
                    assert(derived(c, col_of(i)).contains(digit(t[j]->0)));
                } else if in_grid(j, 9 + row_of(i)) {
                    assert(derived(c, 9 + row_of(i)).contains(digit(t[j]->0)));
                } else {
                    assert(derived(c, 18 + block_of(i)).contains(digit(t[j]->0)));
                }
                assert(b.forbidden(i).contains(digit(t[j]->0)));
            } else if c[i] is Some && c[j] is None {
                lemma_in_grid_same_unit(j, i, 0);
                lemma_in_grid_same_unit(i, j, 0);
                lemma_unit_bounds(j);
                assert(same_unit(j, i));
                assert(holds(c, i, digit(t[i]->0)));
                if in_grid(i, col_of(j)) {
                    assert(derived(c, col_of(j)).contains(digit(t[i]->0)));
                } else if in_grid(i, 9 + row_of(j)) {
                    assert(derived(c, 9 + row_of(j)).contains(digit(t[i]->0)));
                } else {
                    assert(derived(c, 18 + block_of(j)).contains(digit(t[i]->0)));
                }
                assert(b.forbidden(j).contains(digit(t[i]->0)));
            }
        }
    }
    if solved(t) && extends(c, t) {
        assert forall|i: int| 0 <= i < 81 && (#[trigger] c[i]) is None implies !b.forbidden(
            i,
        ).contains(digit(t[i]->0)) by {
            let d = digit(t[i]->0);
            lemma_unit_bounds(i);
            lemma_in_grid_same_unit(i, i, 0);
            if b.forbidden(i).contains(d) {
                let g = if derived(c, col_of(i)).contains(d) {
                    col_of(i)
                } else if derived(c, 9 + row_of(i)).contains(d) {
                    9 + row_of(i)
                } else {
                    18 + block_of(i)
                };
                let j = choose|j: int| 0 <= j < 81 && in_grid(j, g) && #[trigger] holds(c, j, d);
                lemma_in_grid_same_unit(i, j, g);
                assert(t[j] == c[j]);
                lemma_digit_injective(t[i]->0, t[j]->0);
                assert(t[i] is Some && t[j] is Some);
            }
        }
    }
}

/// Every grid the search reports is solved: each column, row and block holds each digit
/// exactly once.
pub proof fn lemma_solutions_are_solved(b: Redoku, unique: bool, s: Redoku, steps: u32)
    requires
        b.wf(),
        solution_found(b, unique, Some((s, steps))),
    ensures
        solved(s.cells()),
        forall|g: int, d: nat| 0 <= g < 27 && d < 9 ==> #[trigger] holds_once(s.cells(), g, d),
{
    assert(full(s.cells()));
    assert forall|g: int, d: nat| 0 <= g < 27 && d < 9 implies #[trigger] holds_once(
        s.cells(),
        g,
        d,
    ) by {
        lemma_solved_units(s.cells(), g, d);
    }
}

/// Searching for a unique completion of a board without temporary entries gives nothing
/// when two different solved grids keep its digits, and gives the one such grid when there
/// is exactly one.
pub proof fn lemma_unique_search(
    b: Redoku,
    r: Option<(Redoku, u32)>,
    t1: Seq<Option<Value>>,
    t2: Seq<Option<Value>>,
)
    requires
        b.wf(),
        b.temps().len() == 0,
        solution_found(b, true, r),
    ensures
        t1 != t2 && solved(t1) && extends(b.cells(), t1) && solved(t2) && extends(b.cells(), t2)
            ==> r is None,
        solved(t1) && extends(b.cells(), t1) && (forall|u: Seq<Option<Value>>|
            solved(u) && extends(b.cells(), u) ==> u == t1) ==> (r matches Some((s, _)) && s.cells()
            == t1),
{
    lemma_completion_is_solution(b, t1);
    lemma_completion_is_solution(b, t2);
    if t1 != t2 && solved(t1) && extends(b.cells(), t1) && solved(t2) && extends(b.cells(), t2) {
        if let Some((s, _)) = r {
            assert(t1 == s.cells() && t2 == s.cells());
        }
    }
    if solved(t1) && extends(b.cells(), t1) && (forall|u: Seq<Option<Value>>|
        solved(u) && extends(b.cells(), u) ==> u == t1) {
        assert forall|u: Seq<Option<Value>>| is_completion(b, u) implies u == t1 by {
            lemma_completion_is_solution(b, u);
        }
        assert(unique_completion(b));
    }
}


/// Two boards with the same cells, sets and temporary entries have the same completions.
pub proof fn lemma_same_state_completions(a: Redoku, b: Redoku)
    requires
        a.same_state(&b),
    ensures
        forall|t: Seq<Option<Value>>| #[trigger] is_completion(a, t) == is_completion(b, t),
        unique_completion(a) == unique_completion(b),
        has_completion(a) == has_completion(b),
{
    assert forall|i: int| 0 <= i < 81 implies #[trigger] a.forbidden(i) == b.forbidden(i) by {}
    assert forall|t: Seq<Option<Value>>| #[trigger] is_completion(a, t) == is_completion(b, t) by {}
    if unique_completion(a) {
        let t = choose|t: Seq<Option<Value>>|
            is_completion(a, t) && forall|u: Seq<Option<Value>>| is_completion(a, u) ==> u == t;
        assert(is_completion(b, t));
        assert forall|u: Seq<Option<Value>>| is_completion(b, u) implies u == t by {
            assert(is_completion(a, u));
        }
    }
    if unique_completion(b) {
        let t = choose|t: Seq<Option<Value>>|
            is_completion(b, t) && forall|u: Seq<Option<Value>>| is_completion(b, u) ==> u == t;
        assert(is_completion(a, t));
        assert forall|u: Seq<Option<Value>>| is_completion(a, u) implies u == t by {
            assert(is_completion(b, u));
        }
    }
    if has_completion(a) {
        let t = choose|t: Seq<Option<Value>>| is_completion(a, t);
        assert(is_completion(b, t));
    }
    if has_completion(b) {
        let t = choose|t: Seq<Option<Value>>| is_completion(b, t);
        assert(is_completion(a, t));
    }
}

/// Every completion of a board is a solved grid.
pub proof fn lemma_completion_solved(b: Redoku, t: Seq<Option<Value>>)
    requires
        b.wf(),
        is_completion(b, t),
    ensures
        solved(t),
{
    let c = b.cells();
    assert forall|g: int| 0 <= g < 27 implies #[trigger] derived(c, g).subset_of(b.grid(g)) by {
        assert(b.grid(g) == derived(c, g).union(overlay(b.temps(), g)));
    }
    assert forall|i: int, j: int|
        0 <= i < 81 && 0 <= j < 81 && i != j && same_unit(i, j) && #[trigger] t[i] is Some
            && #[trigger] t[j] is Some implies t[i] != t[j] by {
        if c[i] is Some && c[j] is Some {
            assert(t[i] == c[i] && t[j] == c[j]);
        } else if c[i] is None && c[j] is Some {
            lemma_in_grid_same_unit(i, j, 0);
            lemma_unit_bounds(i);
            assert(holds(c, j, digit(t[j]->0)));
            if in_grid(j, col_of(i)) {
                assert(derived(c, col_of(i)).contains(digit(t[j]->0)));
            } else if in_grid(j, 9 + row_of(i)) {
                assert(derived(c, 9 + row_of(i)).contains(digit(t[j]->0)));
            } else {
                assert(derived(c, 18 + block_of(i)).contains(digit(t[j]->0)));
            }
            assert(b.forbidden(i).contains(digit(t[j]->0)));
        } else if c[i] is Some && c[j] is None {
            lemma_in_grid_same_unit(j, i, 0);
            lemma_in_grid_same_unit(i, j, 0);
            lemma_unit_bounds(j);
            assert(same_unit(j, i));
            assert(holds(c, i, digit(t[i]->0)));
            if in_grid(i, col_of(j)) {
                assert(derived(c, col_of(j)).contains(digit(t[i]->0)));
            } else if in_grid(i, 9 + row_of(j)) {
                assert(derived(c, 9 + row_of(j)).contains(digit(t[i]->0)));
            } else {
                assert(derived(c, 18 + block_of(j)).contains(digit(t[i]->0)));
            }
            assert(b.forbidden(j).contains(digit(t[i]->0)));
        }
    }
}

/// Placing in an empty cell the only digit it can take keeps every completion.
pub proof fn lemma_forced_placement(b0: Redoku, b1: Redoku, i: int, v: Value)
    requires
        b0.wf(),
        b1.wf(),
        0 <= i < 81,
        b0.cells()[i] is None,
        b1.cells() == b0.cells().update(i, Some(v)),
        b1.temps() == b0.temps(),
        !b0.forbidden(i).contains(digit(v)),
        forall|d: nat| d < 9 && !b0.forbidden(i).contains(d) ==> d == digit(v),
    ensures
        forall|t: Seq<Option<Value>>| is_completion(b0, t) ==> #[trigger] is_completion(b1, t),
{
    lemma_place_completions(b0, b1, i, v);
    assert forall|t: Seq<Option<Value>>| is_completion(b0, t) implies #[trigger] is_completion(
        b1,
        t,
    ) by {
        assert(b0.cells()[i] is None);
        assert(t[i] is Some);
        lemma_digit_injective(t[i]->0, v);
    }
}

/// A set of eight digits leaves out exactly one digit.
pub proof fn lemma_single_missing(f: Set<nat>, d: nat)
    requires
        f.subset_of(all_digits()),
        f.len() == 8,
        d < 9,
        !f.contains(d),
    ensures
        forall|e: nat| e < 9 && !f.contains(e) ==> e == d,
{
    lemma_digit_set_bounds(f);
    assert forall|e: nat| e < 9 && !f.contains(e) implies e == d by {
        if e != d {
            let rest = all_digits().remove(d).remove(e);
            assert(f.subset_of(rest));
            lemma_digit_set_bounds(rest);
            assert(all_digits().remove(d).len() == 8);
            assert(rest.len() == 7);
            vstd::set_lib::lemma_len_subset(f, rest);
        }
    }
}

/// A set of fewer than nine digits leaves one out.
pub proof fn lemma_some_missing(f: Set<nat>)
    requires
        f.subset_of(all_digits()),
        f.len() < 9,
    ensures
        exists|d: nat| d < 9 && !f.contains(d),
{
    lemma_digit_set_bounds(f);
    if forall|d: nat| d < 9 ==> f.contains(d) {
        assert(all_digits().subset_of(f));
        vstd::set_lib::lemma_len_subset(all_digits(), f);
    }
}

/// Exactly one solved grid keeps the digits of `cells`.
pub open spec fn unique_solution_of(cells: Seq<Option<Value>>) -> bool {
    exists|t: Seq<Option<Value>>|
        solved(t) && extends(cells, t) && forall|u: Seq<Option<Value>>|
            solved(u) && extends(cells, u) ==> u == t
}

/// On a board without temporary entries, a unique completion is a unique solved grid
/// keeping its digits.
pub proof fn lemma_unique_completion_cells(b: Redoku)
    requires
        b.wf(),
        b.temps().len() == 0,
    ensures
        unique_completion(b) == unique_solution_of(b.cells()),
{
    assert forall|t: Seq<Option<Value>>| #[trigger] is_completion(b, t) == (solved(t) && extends(
        b.cells(),
        t,
    )) by {
        lemma_completion_is_solution(b, t);
    }
    if unique_completion(b) {
        let t = choose|t: Seq<Option<Value>>|
            is_completion(b, t) && forall|u: Seq<Option<Value>>| is_completion(b, u) ==> u == t;
        assert forall|u: Seq<Option<Value>>| solved(u) && extends(b.cells(), u) implies u == t by {
            assert(is_completion(b, u));
        }
    }
    if unique_solution_of(b.cells()) {
        let t = choose|t: Seq<Option<Value>>|
            solved(t) && extends(b.cells(), t) && forall|u: Seq<Option<Value>>|
                solved(u) && extends(b.cells(), u) ==> u == t;
        assert(is_completion(b, t));
        assert forall|u: Seq<Option<Value>>| is_completion(b, u) implies u == t by {}
    }
}

/// Taking more digits away from a layout with several solutions leaves several solutions.
pub proof fn lemma_fewer_digits_not_unique(c1: Seq<Option<Value>>, c2: Seq<Option<Value>>)
    requires
        extends(c2, c1),
        !unique_solution_of(c1),
        exists|t: Seq<Option<Value>>| solved(t) && extends(c1, t),
    ensures
        !unique_solution_of(c2),
{
    let t1 = choose|t: Seq<Option<Value>>| solved(t) && extends(c1, t);
    assert(!(forall|u: Seq<Option<Value>>| solved(u) && extends(c1, u) ==> u == t1));
    let t2 = choose|u: Seq<Option<Value>>| !(solved(u) && extends(c1, u) ==> u == t1);
    assert forall|i: int| 0 <= i < 81 && (#[trigger] c2[i]) is Some implies t1[i] == c2[i] by {}
    assert forall|i: int| 0 <= i < 81 && (#[trigger] c2[i]) is Some implies t2[i] == c2[i] by {}
    if unique_solution_of(c2) {
        let t = choose|t: Seq<Option<Value>>|
            solved(t) && extends(c2, t) && forall|u: Seq<Option<Value>>|
                solved(u) && extends(c2, u) ==> u == t;
        assert(t1 == t && t2 == t);
    }
}

} // verus!
