//! Board-level behavior: construction, placement, mouse movement, the AI,
//! and the wire form of a board.

use trap_the_mouse::grid::{decode_tiles, Entity, Grid};
use trap_the_mouse::room::TurnResult;

/// The cell codes of a board, decoded from its wire form.
fn cells_of(g: &Grid) -> Vec<Vec<u8>> {
    let bytes = g.as_bytes();
    let frame = decode_tiles(&bytes).expect("a board always serializes decodably");
    let w = frame.width as usize;
    let h = frame.height as usize;
    let mut cells = vec![vec![0u8; w]; h];
    for &(y, x, code) in frame.triples.iter() {
        cells[y as usize][x as usize] = code;
    }
    cells
}

fn mouse_of(cells: &[Vec<u8>]) -> (usize, usize) {
    for (i, row) in cells.iter().enumerate() {
        for (j, &c) in row.iter().enumerate() {
            if c == 1 {
                return (i, j);
            }
        }
    }
    panic!("no mouse cell");
}

fn neighbors(i: usize, j: usize, h: usize, w: usize) -> Vec<(usize, usize)> {
    let offs: [(i32, i32); 6] = if j % 2 == 0 {
        [(-1, 0), (1, 0), (0, -1), (0, 1), (-1, -1), (-1, 1)]
    } else {
        [(-1, 0), (1, 0), (0, -1), (0, 1), (1, -1), (1, 1)]
    };
    let mut r = Vec::new();
    for (di, dj) in offs {
        let ni = i as i32 + di;
        let nj = j as i32 + dj;
        if ni >= 0 && nj >= 0 && (ni as usize) < h && (nj as usize) < w {
            r.push((ni as usize, nj as usize));
        }
    }
    r
}

#[test]
fn new_board_has_one_mouse_at_center_and_five_walls() {
    let g = Grid::new(11, 11);
    assert_eq!(g.width(), 11);
    assert_eq!(g.height(), 11);
    let cells = cells_of(&g);
    let mut mice = 0;
    let mut walls = 0;
    for row in &cells {
        for &c in row {
            if c == 1 {
                mice += 1;
            }
            if c == 2 {
                walls += 1;
            }
        }
    }
    assert_eq!(mice, 1);
    assert_eq!(walls, 5);
    assert_eq!(cells[5][5], 1);
}

#[test]
fn place_fills_empty_cell_and_rejects_occupied() {
    let mut g = Grid::new(11, 11);
    let cells = cells_of(&g);
    // find an empty cell
    let mut target = None;
    'outer: for i in 0..11usize {
        for j in 0..11usize {
            if cells[i][j] == 0 {
                target = Some((i, j));
                break 'outer;
            }
        }
    }
    let (y, x) = target.unwrap();
    assert_eq!(g.place(&y, &x, Entity::Wall), TurnResult::Good);
    let after = cells_of(&g);
    assert_eq!(after[y][x], 2);
    // placing again on the same cell is Bad and a no-op
    assert_eq!(g.place(&y, &x, Entity::Wall), TurnResult::Bad);
    assert_eq!(cells_of(&g), after);
    // placing on the mouse cell is Bad too
    assert_eq!(g.place(&5, &5, Entity::Wall), TurnResult::Bad);
    assert_eq!(cells_of(&g), after);
}

#[test]
fn move_mouse_steps_to_empty_neighbor_and_vacates_old_cell() {
    let mut g = Grid::new(11, 11);
    let cells = cells_of(&g);
    let (mi, mj) = mouse_of(&cells);
    let empty_nb = neighbors(mi, mj, 11, 11)
        .into_iter()
        .find(|&(i, j)| cells[i][j] == 0)
        .expect("five walls cannot fill six neighbors");
    let r = g.move_mouse(&empty_nb.0, &empty_nb.1);
    assert_eq!(r, TurnResult::Good);
    let after = cells_of(&g);
    assert_eq!(after[empty_nb.0][empty_nb.1], 1);
    assert_eq!(after[mi][mj], 0);
}

#[test]
fn move_mouse_rejects_non_neighbor() {
    let mut g = Grid::new(11, 11);
    let before = cells_of(&g);
    assert_eq!(g.move_mouse(&0, &0), TurnResult::Bad);
    assert_eq!(cells_of(&g), before);
}

#[test]
fn surrounded_mouse_ends_the_game_without_moving() {
    let mut g = Grid::new(11, 11);
    let cells = cells_of(&g);
    let (mi, mj) = mouse_of(&cells);
    for (i, j) in neighbors(mi, mj, 11, 11) {
        // occupied neighbors just report Bad
        let _ = g.place(&i, &j, Entity::Wall);
    }
    let before = cells_of(&g);
    assert_eq!(g.place_random(Entity::Wall), TurnResult::GameOver);
    assert_eq!(cells_of(&g), before);
    assert_eq!(g.move_mouse(&(mi - 1), &mj), TurnResult::GameOver);
    assert_eq!(cells_of(&g), before);
}

#[test]
fn place_random_fills_one_mouse_neighbor() {
    let mut g = Grid::new(11, 11);
    let cells = cells_of(&g);
    let (mi, mj) = mouse_of(&cells);
    let empty_before: Vec<(usize, usize)> = neighbors(mi, mj, 11, 11)
        .into_iter()
        .filter(|&(i, j)| cells[i][j] == 0)
        .collect();
    assert_eq!(g.place_random(Entity::Wall), TurnResult::Good);
    let after = cells_of(&g);
    let filled: Vec<(usize, usize)> = empty_before
        .iter()
        .copied()
        .filter(|&(i, j)| after[i][j] == 2)
        .collect();
    assert_eq!(filled.len(), 1);
}

#[test]
fn ai_mouse_reaches_the_border() {
    // With the AI playing the Mouse and nobody placing walls, its
    // escape-distance moves must reach a border cell and end the game.
    let mut g = Grid::new(11, 11);
    let mut over = false;
    // the escape distance strictly falls with every AI move, and no distance
    // on an 11 x 11 board exceeds the cell count
    for _ in 0..130 {
        match g.move_mouse_random() {
            TurnResult::GameOver => {
                over = true;
                break;
            }
            TurnResult::Good => {}
            TurnResult::Bad => panic!("the AI never reports Bad"),
        }
    }
    assert!(over);
    let cells = cells_of(&g);
    let (mi, mj) = mouse_of(&cells);
    assert!(mi == 0 || mi == 10 || mj == 0 || mj == 10);
}

#[test]
fn mouse_move_onto_border_reports_game_over() {
    // Walk the mouse along a shortest path to the border computed from the
    // decoded board; the step onto the border itself must be GameOver.
    let mut g = Grid::new(11, 11);
    loop {
        let cells = cells_of(&g);
        let (mi, mj) = mouse_of(&cells);
        // breadth-first distances to the empty border cells
        let mut dist = vec![vec![i32::MAX; 11]; 11];
        let mut queue = std::collections::VecDeque::new();
        for i in 0..11usize {
            for j in 0..11usize {
                if (i == 0 || i == 10 || j == 0 || j == 10) && cells[i][j] == 0 {
                    dist[i][j] = 0;
                    queue.push_back((i, j));
                }
            }
        }
        while let Some((i, j)) = queue.pop_front() {
            for (ni, nj) in neighbors(i, j, 11, 11) {
                if cells[ni][nj] == 0 && dist[ni][nj] == i32::MAX {
                    dist[ni][nj] = dist[i][j] + 1;
                    queue.push_back((ni, nj));
                }
            }
        }
        let (bi, bj) = neighbors(mi, mj, 11, 11)
            .into_iter()
            .filter(|&(i, j)| cells[i][j] == 0)
            .min_by_key(|&(i, j)| dist[i][j])
            .expect("an interior mouse always has an empty neighbor");
        assert!(dist[bi][bj] < i32::MAX, "five walls cannot cut off the center");
        let r = g.move_mouse(&bi, &bj);
        if bi == 0 || bi == 10 || bj == 0 || bj == 10 {
            assert_eq!(r, TurnResult::GameOver);
            break;
        } else {
            assert_eq!(r, TurnResult::Good);
        }
    }
}

#[test]
fn entity_codes_round_trip() {
    for e in [Entity::Empty, Entity::Mouse, Entity::Wall] {
        assert_eq!(Entity::from_code(e.code()), e);
    }
    assert_eq!(Entity::Empty.code(), 0);
    assert_eq!(Entity::Mouse.code(), 1);
    assert_eq!(Entity::Wall.code(), 2);
    assert_eq!(Entity::from_code(7), Entity::Empty);
}

#[test]
fn board_wire_form_round_trips() {
    let g = Grid::new(11, 11);
    let bytes = g.as_bytes();
    // header: three little-endian u32 fields
    assert_eq!(&bytes[0..4], &11u32.to_le_bytes());
    assert_eq!(&bytes[4..8], &11u32.to_le_bytes());
    let n = u32::from_le_bytes([bytes[8], bytes[9], bytes[10], bytes[11]]);
    assert_eq!(n, 6); // one mouse and five walls
    assert_eq!(bytes.len(), 12 + 3 * n as usize);
    let frame = decode_tiles(&bytes).unwrap();
    assert_eq!(frame.width, 11);
    assert_eq!(frame.height, 11);
    assert_eq!(frame.triples.len(), 6);
    // the same non-empty cells come back
    let cells = cells_of(&g);
    for &(y, x, code) in frame.triples.iter() {
        assert_eq!(cells[y as usize][x as usize], code);
    }
}

#[test]
fn truncated_board_bytes_are_rejected() {
    let g = Grid::new(11, 11);
    let mut bytes = g.as_bytes();
    bytes.pop();
    assert!(decode_tiles(&bytes).is_none());
    assert!(decode_tiles(&vec![1, 2, 3]).is_none());
}
