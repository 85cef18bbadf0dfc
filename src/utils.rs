use vstd::prelude::*;

use crate::redoku::{consistent, literal_cells, literal_shape, Redoku};

verus! {

/// The layout of `get_very_easy_redoku`, row by row, 0 for an empty cell.
pub open spec fn very_easy_layout() -> Seq<u8> {
    seq![
        0, 6, 7, 4, 2, 5, 0, 0, 9,
        2, 0, 0, 1, 8, 0, 0, 6, 0,
        8, 9, 0, 6, 0, 7, 0, 5, 2,
        4, 0, 0, 0, 6, 0, 9, 1, 3,
        6, 0, 2, 3, 9, 4, 5, 7, 0,
        9, 7, 3, 8, 0, 1, 6, 2, 0,
        0, 0, 0, 2, 4, 3, 7, 9, 5,
        0, 2, 4, 9, 7, 6, 8, 0, 0,
        0, 3, 0, 5, 1, 8, 2, 0, 0,
    ]
}

/// A puzzle graded very easy. When its layout breaks no rule, the board holds exactly that layout.
pub fn get_very_easy_redoku() -> (r: Redoku)
    ensures
        r.wf(),
        r.temps().len() == 0,
        literal_shape(very_easy_layout()) && consistent(literal_cells(very_easy_layout())) ==> r.cells() == literal_cells(
            very_easy_layout(),
        ),
{
    let tokens: Vec<u8> = vec![
        0, 6, 7, 4, 2, 5, 0, 0, 9,
        2, 0, 0, 1, 8, 0, 0, 6, 0,
        8, 9, 0, 6, 0, 7, 0, 5, 2,
        4, 0, 0, 0, 6, 0, 9, 1, 3,
        6, 0, 2, 3, 9, 4, 5, 7, 0,
        9, 7, 3, 8, 0, 1, 6, 2, 0,
        0, 0, 0, 2, 4, 3, 7, 9, 5,
        0, 2, 4, 9, 7, 6, 8, 0, 0,
        0, 3, 0, 5, 1, 8, 2, 0, 0,
    ];
    proof {
        assert(tokens@ =~= very_easy_layout());
    }
    match Redoku::from_literal(&tokens) {
        Some(redoku) => redoku,
        None => Redoku::with_capacity(0),
    }
}

/// The layout of `get_easy_redoku`, row by row, 0 for an empty cell.
pub open spec fn easy_layout() -> Seq<u8> {
    seq![
        2, 0, 0, 0, 5, 7, 3, 8, 9,
        0, 3, 0, 8, 9, 1, 0, 0, 0,
        7, 0, 9, 0, 0, 3, 0, 1, 6,
        0, 7, 3, 0, 8, 9, 2, 6, 0,
        0, 0, 2, 5, 0, 6, 0, 0, 0,
        0, 9, 0, 3, 0, 4, 0, 5, 7,
        0, 5, 0, 9, 0, 8, 0, 2, 0,
        9, 2, 8, 7, 0, 5, 6, 0, 0,
        0, 0, 0, 0, 3, 0, 0, 0, 0,
    ]
}

/// A puzzle graded easy. When its layout breaks no rule, the board holds exactly that layout.
pub fn get_easy_redoku() -> (r: Redoku)
    ensures
        r.wf(),
        r.temps().len() == 0,
        literal_shape(easy_layout()) && consistent(literal_cells(easy_layout())) ==> r.cells() == literal_cells(
            easy_layout(),
        ),
{
    let tokens: Vec<u8> = vec![
        2, 0, 0, 0, 5, 7, 3, 8, 9,
        0, 3, 0, 8, 9, 1, 0, 0, 0,
        7, 0, 9, 0, 0, 3, 0, 1, 6,
        0, 7, 3, 0, 8, 9, 2, 6, 0,
        0, 0, 2, 5, 0, 6, 0, 0, 0,
        0, 9, 0, 3, 0, 4, 0, 5, 7,
        0, 5, 0, 9, 0, 8, 0, 2, 0,
        9, 2, 8, 7, 0, 5, 6, 0, 0,
        0, 0, 0, 0, 3, 0, 0, 0, 0,
    ];
    proof {
        assert(tokens@ =~= easy_layout());
    }
    match Redoku::from_literal(&tokens) {
        Some(redoku) => redoku,
        None => Redoku::with_capacity(2),
    }
}

/// The layout of `get_medium_redoku`, row by row, 0 for an empty cell.
pub open spec fn medium_layout() -> Seq<u8> {
    seq![
        0, 9, 0, 6, 0, 1, 0, 0, 0,
        0, 0, 0, 0, 3, 0, 9, 0, 1,
        0, 3, 0, 2, 0, 8, 0, 0, 0,
        7, 0, 9, 0, 0, 0, 0, 0, 4,
        0, 4, 0, 3, 0, 7, 0, 9, 0,
        8, 0, 3, 0, 1, 0, 5, 0, 7,
        0, 5, 0, 7, 0, 2, 0, 1, 0,
        9, 0, 4, 0, 5, 0, 7, 0, 6,
        0, 1, 0, 9, 0, 6, 0, 5, 8,
    ]
}

/// A puzzle graded medium. When its layout breaks no rule, the board holds exactly that layout.
pub fn get_medium_redoku() -> (r: Redoku)
    ensures
        r.wf(),
        r.temps().len() == 0,
        literal_shape(medium_layout()) && consistent(literal_cells(medium_layout())) ==> r.cells() == literal_cells(
            medium_layout(),
        ),
{
    let tokens: Vec<u8> = vec![
        0, 9, 0, 6, 0, 1, 0, 0, 0,
        0, 0, 0, 0, 3, 0, 9, 0, 1,
        0, 3, 0, 2, 0, 8, 0, 0, 0,
        7, 0, 9, 0, 0, 0, 0, 0, 4,
        0, 4, 0, 3, 0, 7, 0, 9, 0,
        8, 0, 3, 0, 1, 0, 5, 0, 7,
        0, 5, 0, 7, 0, 2, 0, 1, 0,
        9, 0, 4, 0, 5, 0, 7, 0, 6,
        0, 1, 0, 9, 0, 6, 0, 5, 8,
    ];
    proof {
        assert(tokens@ =~= medium_layout());
    }
    match Redoku::from_literal(&tokens) {
        Some(redoku) => redoku,
        None => Redoku::with_capacity(2),
    }
}

/// The layout of `get_hard_redoku`, row by row, 0 for an empty cell.
pub open spec fn hard_layout() -> Seq<u8> {
    seq![
        0, 0, 0, 0, 0, 0, 0, 3, 2,
        3, 6, 0, 0, 0, 0, 0, 0, 0,
        0, 0, 0, 0, 0, 0, 5, 0, 8,
        8, 7, 0, 0, 0, 0, 0, 0, 0,
        0, 9, 0, 0, 0, 3, 0, 4, 0,
        6, 0, 0, 8, 0, 0, 0, 0, 0,
        0, 0, 0, 0, 0, 2, 0, 0, 3,
        5, 0, 1, 6, 3, 0, 4, 0, 0,
        0, 3, 9, 1, 4, 8, 7, 5, 6,
    ]
}

/// A puzzle graded hard. When its layout breaks no rule, the board holds exactly that layout.
pub fn get_hard_redoku() -> (r: Redoku)
    ensures
        r.wf(),
        r.temps().len() == 0,
        literal_shape(hard_layout()) && consistent(literal_cells(hard_layout())) ==> r.cells() == literal_cells(
            hard_layout(),
        ),
{
    let tokens: Vec<u8> = vec![
        0, 0, 0, 0, 0, 0, 0, 3, 2,
        3, 6, 0, 0, 0, 0, 0, 0, 0,
        0, 0, 0, 0, 0, 0, 5, 0, 8,
        8, 7, 0, 0, 0, 0, 0, 0, 0,
        0, 9, 0, 0, 0, 3, 0, 4, 0,
        6, 0, 0, 8, 0, 0, 0, 0, 0,
        0, 0, 0, 0, 0, 2, 0, 0, 3,
        5, 0, 1, 6, 3, 0, 4, 0, 0,
        0, 3, 9, 1, 4, 8, 7, 5, 6,
    ];
    proof {
        assert(tokens@ =~= hard_layout());
    }
    match Redoku::from_literal(&tokens) {
        Some(redoku) => redoku,
        None => Redoku::with_capacity(13),
    }
}

/// The layout of `get_evil_redoku`, row by row, 0 for an empty cell.
pub open spec fn evil_layout() -> Seq<u8> {
    seq![
        0, 0, 0, 0, 0, 0, 0, 0, 0,
        0, 0, 0, 0, 0, 0, 5, 2, 3,
        0, 0, 0, 0, 0, 0, 0, 1, 8,
        0, 0, 0, 0, 0, 0, 0, 0, 0,
        0, 0, 9, 0, 7, 4, 0, 6, 0,
        0, 0, 4, 6, 1, 0, 0, 0, 7,
        0, 5, 8, 0, 4, 3, 0, 0, 0,
        0, 4, 0, 0, 2, 0, 0, 3, 0,
        0, 6, 7, 0, 8, 1, 0, 9, 4,
    ]
}

/// A puzzle graded evil. When its layout breaks no rule, the board holds exactly that layout.
pub fn get_evil_redoku() -> (r: Redoku)
    ensures
        r.wf(),
        r.temps().len() == 0,
        literal_shape(evil_layout()) && consistent(literal_cells(evil_layout())) ==> r.cells() == literal_cells(
            evil_layout(),
        ),
{
    let tokens: Vec<u8> = vec![
        0, 0, 0, 0, 0, 0, 0, 0, 0,
        0, 0, 0, 0, 0, 0, 5, 2, 3,
        0, 0, 0, 0, 0, 0, 0, 1, 8,
        0, 0, 0, 0, 0, 0, 0, 0, 0,
        0, 0, 9, 0, 7, 4, 0, 6, 0,
        0, 0, 4, 6, 1, 0, 0, 0, 7,
        0, 5, 8, 0, 4, 3, 0, 0, 0,
        0, 4, 0, 0, 2, 0, 0, 3, 0,
        0, 6, 7, 0, 8, 1, 0, 9, 4,
    ];
    proof {
        assert(tokens@ =~= evil_layout());
    }
    match Redoku::from_literal(&tokens) {
        Some(redoku) => redoku,
        None => Redoku::with_capacity(13),
    }
}

/// The layout of `get_evil_redoku2`, row by row, 0 for an empty cell.
pub open spec fn evil_layout2() -> Seq<u8> {
    seq![
        0, 0, 0, 0, 0, 0, 0, 0, 0,
        5, 0, 8, 0, 0, 0, 0, 0, 0,
        0, 0, 0, 2, 0, 0, 0, 0, 1,
        0, 0, 0, 5, 0, 0, 0, 9, 0,
        0, 0, 0, 0, 0, 1, 0, 0, 6,
        9, 0, 6, 0, 0, 0, 4, 0, 0,
        0, 3, 1, 0, 0, 6, 0, 0, 7,
        0, 0, 0, 7, 2, 0, 8, 0, 0,
        0, 8, 2, 0, 9, 0, 0, 0, 3,
    ]
}

/// A second evil puzzle. When its layout breaks no rule, the board holds exactly that layout.
pub fn get_evil_redoku2() -> (r: Redoku)
    ensures
        r.wf(),
        r.temps().len() == 0,
        literal_shape(evil_layout2()) && consistent(literal_cells(evil_layout2())) ==> r.cells() == literal_cells(
            evil_layout2(),
        ),
{
    let tokens: Vec<u8> = vec![
        0, 0, 0, 0, 0, 0, 0, 0, 0,
        5, 0, 8, 0, 0, 0, 0, 0, 0,
        0, 0, 0, 2, 0, 0, 0, 0, 1,
        0, 0, 0, 5, 0, 0, 0, 9, 0,
        0, 0, 0, 0, 0, 1, 0, 0, 6,
        9, 0, 6, 0, 0, 0, 4, 0, 0,
        0, 3, 1, 0, 0, 6, 0, 0, 7,
        0, 0, 0, 7, 2, 0, 8, 0, 0,
        0, 8, 2, 0, 9, 0, 0, 0, 3,
    ];
    proof {
        assert(tokens@ =~= evil_layout2());
    }
    match Redoku::from_literal(&tokens) {
        Some(redoku) => redoku,
        None => Redoku::with_capacity(13),
    }
}

} // verus!
