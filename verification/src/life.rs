//! A cellular-automaton neighbor count on a fixed 16 x 16 boolean board.

use vstd::prelude::*;

verus! {

/// 1 when the cell at `(i, j)` exists and is alive, else 0.
pub open spec fn spec_live_at(m: [[bool; 16]; 16], i: int, j: int) -> nat {
    if 0 <= i < 16 && 0 <= j < 16 && m@[i]@[j] {
        1nat
    } else {
        0nat
    }
}

/// How many of the eight cells around `(i, j)` are alive.
pub open spec fn spec_neighbours(m: [[bool; 16]; 16], i: int, j: int) -> nat {
    spec_live_at(m, i - 1, j - 1) + spec_live_at(m, i - 1, j) + spec_live_at(m, i - 1, j + 1)
        + spec_live_at(m, i, j - 1) + spec_live_at(m, i, j + 1) + spec_live_at(m, i + 1, j - 1)
        + spec_live_at(m, i + 1, j) + spec_live_at(m, i + 1, j + 1)
}

/// Count the live cells among the eight neighbors of `(i, j)`.
pub fn get_neighbours(map: &[[bool; 16]; 16], i: usize, j: usize) -> (r: u8)
    requires
        i < 16,
        j < 16,
    ensures
        r == spec_neighbours(*map, i as int, j as int),
{
    let mut neighbours: u8 = 0;
    if i >= 1 && j >= 1 && map[i - 1][j - 1] {
        neighbours += 1;
    }
    if i >= 1 && map[i - 1][j] {
        neighbours += 1;
    }
    if i >= 1 && j + 1 < 16 && map[i - 1][j + 1] {
        neighbours += 1;
    }
    if j >= 1 && map[i][j - 1] {
        neighbours += 1;
    }
    if j + 1 < 16 && map[i][j + 1] {
        neighbours += 1;
    }
    if i + 1 < 16 && j >= 1 && map[i + 1][j - 1] {
        neighbours += 1;
    }
    if i + 1 < 16 && map[i + 1][j] {
        neighbours += 1;
    }
    if i + 1 < 16 && j + 1 < 16 && map[i + 1][j + 1] {
        neighbours += 1;
    }
    neighbours
}

} // verus!
