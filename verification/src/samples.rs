//! A couple of built-in puzzles, handy for trying the solver out.

use vstd::prelude::*;

use crate::clues::Clues;

verus! {

/// The row clues of the camel puzzle.
pub open spec fn camel_rows() -> Seq<Seq<u16>> {
    seq![
        seq![1u16, 2],
        seq![2u16],
        seq![1u16],
        seq![1u16],
        seq![2u16],
        seq![2u16, 4],
        seq![2u16, 6],
        seq![8u16],
        seq![1u16, 1],
        seq![2u16, 2],
    ]
}

/// The column clues of the camel puzzle.
pub open spec fn camel_cols() -> Seq<Seq<u16>> {
    seq![
        seq![2u16],
        seq![3u16],
        seq![1u16],
        seq![2u16, 1],
        seq![5u16],
        seq![4u16],
        seq![1u16, 4, 1],
        seq![1u16, 5],
        seq![2u16, 2],
        seq![2u16, 1],
    ]
}

/// A 10 by 10 camel.
pub fn camel() -> (r: Clues)
    ensures
        r.wf(),
        r.rows_view() == camel_rows(),
        r.cols_view() == camel_cols(),
{
    let rows: Vec<Vec<u16>> = vec![
        vec![1u16, 2],
        vec![2u16],
        vec![1u16],
        vec![1u16],
        vec![2u16],
        vec![2u16, 4],
        vec![2u16, 6],
        vec![8u16],
        vec![1u16, 1],
        vec![2u16, 2],
    ];
    let cols: Vec<Vec<u16>> = vec![
        vec![2u16],
        vec![3u16],
        vec![1u16],
        vec![2u16, 1],
        vec![5u16],
        vec![4u16],
        vec![1u16, 4, 1],
        vec![1u16, 5],
        vec![2u16, 2],
        vec![2u16, 1],
    ];
    let r = Clues::new(rows, cols);
    proof {
        assert(r.rows_view() =~~= camel_rows());
        assert(r.cols_view() =~~= camel_cols());
    }
    r
}

/// The row clues of the eagle puzzle.
pub open spec fn eagle_rows() -> Seq<Seq<u16>> {
    seq![
        seq![7u16],
        seq![11u16],
        seq![3u16, 3],
        seq![3u16, 3],
        seq![4u16, 2],
        seq![3u16, 2],
        seq![2u16, 1, 2],
        seq![3u16, 6, 1],
        seq![2u16, 2, 1, 2],
        seq![1u16, 1, 6, 1],
        seq![2u16, 2, 1, 2],
        seq![3u16, 2, 2, 2],
        seq![3u16, 2, 4, 1, 1],
        seq![2u16, 4, 1, 1, 2, 2, 1],
        seq![2u16, 12, 2, 1],
        seq![1u16, 1, 15, 1],
        seq![1u16, 2, 2, 6, 2, 1],
        seq![5u16, 5, 1, 1],
        seq![4u16, 5, 3],
        seq![3u16, 6, 2],
        seq![3u16, 1, 5, 1],
        seq![2u16, 1, 2, 2, 2],
        seq![1u16, 5, 1, 2],
        seq![1u16, 5, 1, 2],
        seq![7u16, 1, 2],
    ]
}

/// The column clues of the eagle puzzle.
pub open spec fn eagle_cols() -> Seq<Seq<u16>> {
    seq![
        seq![6u16, 6, 7],
        seq![6u16, 4, 5, 1],
        seq![4u16, 1, 3, 5, 3],
        seq![3u16, 2, 4, 4],
        seq![2u16, 1, 3],
        seq![1u16, 2, 4],
        seq![2u16, 2, 1, 6],
        seq![2u16, 6, 3],
        seq![2u16, 12],
        seq![2u16, 12],
        seq![2u16, 7],
        seq![2u16, 2, 8],
        seq![2u16, 1, 4, 5],
        seq![2u16, 1, 3, 3],
        seq![2u16, 3, 1, 2],
        seq![2u16, 9],
        seq![1u16, 1, 1, 2, 2],
        seq![2u16, 2, 1, 2],
        seq![2u16, 1, 1, 1],
        seq![2u16, 2, 3],
        seq![3u16, 3],
        seq![2u16, 2, 2],
        seq![2u16, 1, 4],
        seq![2u16, 2],
        seq![6u16],
    ]
}

/// A 25 by 25 eagle.
pub fn eagle() -> (r: Clues)
    ensures
        r.wf(),
        r.rows_view() == eagle_rows(),
        r.cols_view() == eagle_cols(),
{
    let rows: Vec<Vec<u16>> = vec![
        vec![7u16],
        vec![11u16],
        vec![3u16, 3],
        vec![3u16, 3],
        vec![4u16, 2],
        vec![3u16, 2],
        vec![2u16, 1, 2],
        vec![3u16, 6, 1],
        vec![2u16, 2, 1, 2],
        vec![1u16, 1, 6, 1],
        vec![2u16, 2, 1, 2],
        vec![3u16, 2, 2, 2],
        vec![3u16, 2, 4, 1, 1],
        vec![2u16, 4, 1, 1, 2, 2, 1],
        vec![2u16, 12, 2, 1],
        vec![1u16, 1, 15, 1],
        vec![1u16, 2, 2, 6, 2, 1],
        vec![5u16, 5, 1, 1],
        vec![4u16, 5, 3],
        vec![3u16, 6, 2],
        vec![3u16, 1, 5, 1],
        vec![2u16, 1, 2, 2, 2],
        vec![1u16, 5, 1, 2],
        vec![1u16, 5, 1, 2],
        vec![7u16, 1, 2],
    ];
    let cols: Vec<Vec<u16>> = vec![
        vec![6u16, 6, 7],
        vec![6u16, 4, 5, 1],
        vec![4u16, 1, 3, 5, 3],
        vec![3u16, 2, 4, 4],
        vec![2u16, 1, 3],
        vec![1u16, 2, 4],
        vec![2u16, 2, 1, 6],
        vec![2u16, 6, 3],
        vec![2u16, 12],
        vec![2u16, 12],
        vec![2u16, 7],
        vec![2u16, 2, 8],
        vec![2u16, 1, 4, 5],
        vec![2u16, 1, 3, 3],
        vec![2u16, 3, 1, 2],
        vec![2u16, 9],
        vec![1u16, 1, 1, 2, 2],
        vec![2u16, 2, 1, 2],
        vec![2u16, 1, 1, 1],
        vec![2u16, 2, 3],
        vec![3u16, 3],
        vec![2u16, 2, 2],
        vec![2u16, 1, 4],
        vec![2u16, 2],
        vec![6u16],
    ];
    let r = Clues::new(rows, cols);
    proof {
        assert(r.rows_view() =~~= eagle_rows());
        assert(r.cols_view() =~~= eagle_cols());
    }
    r
}

} // verus!
