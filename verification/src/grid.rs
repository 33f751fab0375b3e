//! The hexagonal board: entity placement, mouse movement, wall placement,
//! the escape-distance field for the AI, and the wire form of a board.
//!
//! The board uses an "odd-column offset" hex layout: which six cells border
//! `(i, j)` depends on the parity of the column `j`.

use vstd::prelude::*;
use vstd::seq_lib::group_seq_properties;

use crate::room::TurnResult;

verus! {

/// What a single cell holds.
#[derive(PartialEq, Eq, Structural, Clone, Copy, Debug)]
pub enum Entity {
    Empty,
    Mouse,
    Wall,
}

impl Entity {
    /// The wire code of an entity: Empty = 0, Mouse = 1, Wall = 2.
    pub open spec fn spec_code(self) -> u8 {
        match self {
            Entity::Empty => 0,
            Entity::Mouse => 1,
            Entity::Wall => 2,
        }
    }

    /// The entity a wire code stands for; unknown codes read as Empty.
    pub open spec fn spec_from_code(code: u8) -> Entity {
        if code == 1 {
            Entity::Mouse
        } else if code == 2 {
            Entity::Wall
        } else {
            Entity::Empty
        }
    }

    pub fn code(self) -> (r: u8)
        ensures
            r == self.spec_code(),
    {
        match self {
            Entity::Empty => 0,
            Entity::Mouse => 1,
            Entity::Wall => 2,
        }
    }

    pub fn from_code(code: u8) -> (r: Entity)
        ensures
            r == Entity::spec_from_code(code),
    {
        if code == 1 {
            Entity::Mouse
        } else if code == 2 {
            Entity::Wall
        } else {
            Entity::Empty
        }
    }
}

/// Entity codes round-trip: decoding the code of an entity gives it back.
pub proof fn lemma_entity_code_round_trip(e: Entity)
    ensures
        Entity::spec_from_code(e.spec_code()) == e,
{
}

/// The board. `tiles` is a `height` x `width` matrix of cells; `mouse_pos`
/// is the row and column of the one Mouse cell.
pub struct Grid {
    width: usize,
    height: usize,
    tiles: Vec<Vec<Entity>>,
    mouse_pos: (usize, usize),
}

/// Whether `(ni, nj)` borders `(i, j)` in the odd-column offset hex layout.
pub open spec fn is_neighbor(i: int, j: int, ni: int, nj: int) -> bool {
    if j % 2 == 0 {
        ||| (ni, nj) == (i - 1, j)
        ||| (ni, nj) == (i + 1, j)
        ||| (ni, nj) == (i, j - 1)
        ||| (ni, nj) == (i, j + 1)
        ||| (ni, nj) == (i - 1, j - 1)
        ||| (ni, nj) == (i - 1, j + 1)
    } else {
        ||| (ni, nj) == (i - 1, j)
        ||| (ni, nj) == (i + 1, j)
        ||| (ni, nj) == (i, j - 1)
        ||| (ni, nj) == (i, j + 1)
        ||| (ni, nj) == (i + 1, j - 1)
        ||| (ni, nj) == (i + 1, j + 1)
    }
}

/// The fixed iteration order of the six neighbor offsets of a column with
/// the parity of `j`.
pub open spec fn spec_offsets(j: int) -> Seq<(int, int)> {
    if j % 2 == 0 {
        seq![
            (-1int, 0int),
            (1int, 0int),
            (0int, -1int),
            (0int, 1int),
            (-1int, -1int),
            (-1int, 1int),
        ]
    } else {
        seq![(-1int, 0int), (1int, 0int), (0int, -1int), (0int, 1int), (1int, -1int), (1int, 1int)]
    }
}

impl Grid {
    pub closed spec fn spec_width(self) -> int {
        self.width as int
    }

    pub closed spec fn spec_height(self) -> int {
        self.height as int
    }

    pub closed spec fn mouse_row(self) -> int {
        self.mouse_pos.0 as int
    }

    pub closed spec fn mouse_col(self) -> int {
        self.mouse_pos.1 as int
    }

    /// The entity in row `i`, column `j`.
    pub closed spec fn cell(self, i: int, j: int) -> Entity {
        self.tiles@[i]@[j]
    }

    pub open spec fn in_bounds(self, i: int, j: int) -> bool {
        0 <= i < self.spec_height() && 0 <= j < self.spec_width()
    }

    /// Whether `(i, j)` lies in the first or last row or column: the cells
    /// the Mouse escapes on.
    pub open spec fn on_border(self, i: int, j: int) -> bool {
        i == 0 || i == self.spec_height() - 1 || j == 0 || j == self.spec_width() - 1
    }

    /// Well-formed board: the matrix matches the stated dimensions, the
    /// stored mouse position is in bounds and holds the Mouse, and no other
    /// cell does — the grid contains exactly one Mouse cell.
    pub closed spec fn wf(self) -> bool {
        &&& 3 <= self.width <= 255
        &&& 3 <= self.height <= 255
        &&& self.tiles@.len() == self.height
        &&& forall|i: int|
            0 <= i < self.spec_height() ==> (#[trigger] self.tiles@[i])@.len() == self.width
        &&& self.in_bounds(self.mouse_row(), self.mouse_col())
        &&& self.cell(self.mouse_row(), self.mouse_col()) == Entity::Mouse
        &&& forall|i: int, j: int|
            self.in_bounds(i, j) && !(i == self.mouse_row() && j == self.mouse_col())
                ==> #[trigger] self.cell(i, j) != Entity::Mouse
    }

    /// Both boards have the same dimensions and mouse position, and every
    /// cell of `self` equals the cell of `other`.
    pub open spec fn same_as(self, other: Grid) -> bool {
        &&& self.spec_width() == other.spec_width()
        &&& self.spec_height() == other.spec_height()
        &&& self.mouse_row() == other.mouse_row()
        &&& self.mouse_col() == other.mouse_col()
        &&& forall|i: int, j: int|
            self.in_bounds(i, j) ==> #[trigger] self.cell(i, j) == other.cell(i, j)
    }

    /// `(y, x)` is an in-bounds Empty cell bordering `(pi, pj)`.
    pub open spec fn is_empty_neighbor(self, pi: int, pj: int, y: int, x: int) -> bool {
        &&& is_neighbor(pi, pj, y, x)
        &&& self.in_bounds(y, x)
        &&& self.cell(y, x) == Entity::Empty
    }

    /// The singleton candidate sequence for one neighbor slot: kept when the
    /// cell is in bounds and Empty, dropped otherwise.
    pub closed spec fn cand(self, ci: int, cj: int) -> Seq<(usize, usize)> {
        if self.in_bounds(ci, cj) && self.cell(ci, cj) == Entity::Empty {
            seq![(ci as usize, cj as usize)]
        } else {
            Seq::empty()
        }
    }

    /// The in-bounds Empty neighbors of `(pi, pj)`, in the fixed offset
    /// iteration order.
    pub closed spec fn spec_valid_neighbours(self, pi: int, pj: int) -> Seq<(usize, usize)> {
        let o = spec_offsets(pj);
        self.cand(pi + o[0].0, pj + o[0].1) + self.cand(pi + o[1].0, pj + o[1].1) + self.cand(
            pi + o[2].0,
            pj + o[2].1,
        ) + self.cand(pi + o[3].0, pj + o[3].1) + self.cand(pi + o[4].0, pj + o[4].1) + self.cand(
            pi + o[5].0,
            pj + o[5].1,
        )
    }

    /// `(pi, pj)` has at least one in-bounds Empty neighbor.
    pub open spec fn has_empty_neighbor(self, pi: int, pj: int) -> bool {
        self.spec_valid_neighbours(pi, pj).len() > 0
    }

    /// Append the cell at offset `(di, dj)` from `(pi, pj)` when it is an
    /// in-bounds Empty cell.
    fn push_if_valid(
        &self,
        res: &mut Vec<(usize, usize)>,
        pi: usize,
        pj: usize,
        di: i64,
        dj: i64,
    )
        requires
            self.wf(),
            pi < self.spec_height(),
            pj < self.spec_width(),
            -1 <= di <= 1,
            -1 <= dj <= 1,
        ensures
            final(res)@ == old(res)@ + self.cand(pi + di, pj + dj),
    {
        let ni = pi as i64 + di;
        let nj = pj as i64 + dj;
        if ni >= 0 && nj >= 0 && (ni as usize) < self.height && (nj as usize) < self.width {
            if self.tiles[ni as usize][nj as usize] == Entity::Empty {
                res.push((ni as usize, nj as usize));
                assert(res@ =~= old(res)@ + self.cand(pi + di, pj + dj));
            } else {
                assert(res@ =~= old(res)@ + self.cand(pi + di, pj + dj));
            }
        } else {
            assert(res@ =~= old(res)@ + self.cand(pi + di, pj + dj));
        }
    }

    /// All in-bounds Empty neighbors of `(pi, pj)`, in the fixed offset
    /// iteration order.
    fn get_valid_neighbours(&self, pi: usize, pj: usize) -> (r: Vec<(usize, usize)>)
        requires
            self.wf(),
            pi < self.spec_height(),
            pj < self.spec_width(),
        ensures
            r@ == self.spec_valid_neighbours(pi as int, pj as int),
    {
        let mut r: Vec<(usize, usize)> = Vec::new();
        if pj % 2 == 0 {
            self.push_if_valid(&mut r, pi, pj, -1, 0);
            self.push_if_valid(&mut r, pi, pj, 1, 0);
            self.push_if_valid(&mut r, pi, pj, 0, -1);
            self.push_if_valid(&mut r, pi, pj, 0, 1);
            self.push_if_valid(&mut r, pi, pj, -1, -1);
            self.push_if_valid(&mut r, pi, pj, -1, 1);
        } else {
            self.push_if_valid(&mut r, pi, pj, -1, 0);
            self.push_if_valid(&mut r, pi, pj, 1, 0);
            self.push_if_valid(&mut r, pi, pj, 0, -1);
            self.push_if_valid(&mut r, pi, pj, 0, 1);
            self.push_if_valid(&mut r, pi, pj, 1, -1);
            self.push_if_valid(&mut r, pi, pj, 1, 1);
        }
        assert(r@ =~= self.spec_valid_neighbours(pi as int, pj as int));
        r
    }

    /// Overwrite one cell of the matrix.
    fn set_cell(&mut self, i: usize, j: usize, e: Entity)
        requires
            i < old(self).tiles@.len(),
            j < old(self).tiles@[i as int]@.len(),
        ensures
            final(self).width == old(self).width,
            final(self).height == old(self).height,
            final(self).mouse_pos == old(self).mouse_pos,
            final(self).tiles@.len() == old(self).tiles@.len(),
            forall|a: int|
                0 <= a < old(self).tiles@.len() ==> (#[trigger] final(self).tiles@[a])@.len()
                    == old(self).tiles@[a]@.len(),
            final(self).cell(i as int, j as int) == e,
            forall|a: int, b: int|
                0 <= a < old(self).tiles@.len() && 0 <= b < old(self).tiles@[a]@.len() && !(a == i
                    && b == j) ==> #[trigger] final(self).cell(a, b) == old(self).cell(a, b),
    {
        self.tiles[i][j] = e;
        proof {
            assert(self.tiles@[i as int]@ == old(self).tiles@[i as int]@.update(j as int, e));
            assert(forall|a: int|
                0 <= a < old(self).tiles@.len() && a != i ==> #[trigger] self.tiles@[a]
                    == old(self).tiles@[a]);
        }
    }

    /// Put `entity` on cell `(y, x)` if that cell is Empty; report Bad and
    /// change nothing otherwise.
    pub fn place(&mut self, y: &usize, x: &usize, entity: Entity) -> (r: TurnResult)
        requires
            old(self).wf(),
            *y < old(self).spec_height(),
            *x < old(self).spec_width(),
            entity != Entity::Mouse,
        ensures
            final(self).wf(),
            place_transition(*old(self), *final(self), *y as int, *x as int, entity, r),
    {
        if self.tiles[*y][*x] == Entity::Empty {
            self.set_cell(*y, *x, entity);
            proof {
                assert(old(self).cell(*y as int, *x as int) == Entity::Empty);
                assert(self.cell(self.mouse_row(), self.mouse_col()) == Entity::Mouse);
            }
            TurnResult::Good
        } else {
            TurnResult::Bad
        }
    }

    /// Move the Mouse to `(y, x)`. Bad unless `(y, x)` is an Empty neighbor
    /// of the current Mouse cell; GameOver without moving when the Mouse has
    /// no Empty neighbor at all; otherwise the Mouse moves, and the result is
    /// GameOver exactly when the new cell lies on the border.
    pub fn move_mouse(&mut self, y: &usize, x: &usize) -> (r: TurnResult)
        requires
            old(self).wf(),
        ensures
            final(self).wf(),
            move_transition(*old(self), *final(self), *y as int, *x as int, r),
    {
        let (mi, mj) = self.mouse_pos;
        let valid = self.get_valid_neighbours(mi, mj);
        proof {
            lemma_valid_neighbours_iff(*self, mi as int, mj as int);
        }

        if valid.len() == 0 {
            return TurnResult::GameOver;
        }

        let mut found = false;
        let mut k: usize = 0;
        while k < valid.len()
            invariant
                valid@ == self.spec_valid_neighbours(mi as int, mj as int),
                k <= valid@.len(),
                found <==> exists|m: int| 0 <= m < k && valid@[m] == (*y, *x),
            decreases valid@.len() - k,
        {
            if valid[k].0 == *y && valid[k].1 == *x {
                found = true;
            }
            k += 1;
        }

        if found {
            proof {
                let c = valid@[choose|m: int| 0 <= m < valid@.len() && valid@[m] == (*y, *x)];
                assert(valid@.contains(c));
                assert(old(self).is_empty_neighbor(mi as int, mj as int, *y as int, *x as int));
                assert(!(mi == *y && mj == *x));
            }
            self.set_cell(mi, mj, Entity::Empty);
            let ghost mid = *self;
            self.set_cell(*y, *x, Entity::Mouse);
            let ghost mid2 = *self;
            self.mouse_pos = (*y, *x);
            proof {
                assert(self.cell(*y as int, *x as int) == Entity::Mouse);
                assert forall|i: int, j: int|
                    old(self).in_bounds(i, j) && !(i == mi && j == mj) && !(i == *y && j == *x)
                        implies #[trigger] self.cell(i, j) == old(self).cell(i, j) by {
                    assert(mid.cell(i, j) == old(self).cell(i, j));
                    assert(mid2.cell(i, j) == mid.cell(i, j));
                    assert(self.cell(i, j) == mid2.cell(i, j));
                }
                assert(mid2.cell(mi as int, mj as int) == mid.cell(mi as int, mj as int));
                assert(self.cell(mi as int, mj as int) == Entity::Empty);
            }
            if *y == 0 || *y == self.height - 1 || *x == 0 || *x == self.width - 1 {
                TurnResult::GameOver
            } else {
                TurnResult::Good
            }
        } else {
            proof {
                if old(self).is_empty_neighbor(mi as int, mj as int, *y as int, *x as int) {
                    assert(valid@.contains((*y, *x)));
                    let m = choose|m: int| 0 <= m < valid@.len() && valid@[m] == (*y, *x);
                    assert(false);
                }
            }
            TurnResult::Bad
        }
    }
}

impl Grid {
    /// The number of columns.
    pub fn width(&self) -> (r: usize)
        ensures
            r == self.spec_width(),
    {
        self.width
    }

    /// The number of rows.
    pub fn height(&self) -> (r: usize)
        ensures
            r == self.spec_height(),
    {
        self.height
    }

    /// Number of cells in row `i`, columns `[j, width)`, that hold `e`.
    pub closed spec fn row_count(self, e: Entity, i: int, j: int) -> nat
        decreases self.spec_width() - j,
    {
        if j < 0 || j >= self.spec_width() {
            0
        } else {
            (if self.cell(i, j) == e {
                1nat
            } else {
                0nat
            }) + self.row_count(e, i, j + 1)
        }
    }

    /// Number of cells in rows `[i, height)` that hold `e`.
    pub closed spec fn count_from(self, e: Entity, i: int) -> nat
        decreases self.spec_height() - i,
    {
        if i < 0 || i >= self.spec_height() {
            0
        } else {
            self.row_count(e, i, 0) + self.count_from(e, i + 1)
        }
    }

    /// Number of cells of the board that hold `e`.
    pub open spec fn count(self, e: Entity) -> nat {
        self.count_from(e, 0)
    }

    /// A fresh board: Mouse at the center cell `(height/2, width/2)`, five
    /// Walls scattered at random on other cells, everything else Empty.
    pub fn new(width: usize, height: usize) -> (g: Grid)
        requires
            3 <= width <= 255,
            3 <= height <= 255,
        ensures
            g.wf(),
            g.spec_width() == width,
            g.spec_height() == height,
            g.mouse_row() == height as int / 2,
            g.mouse_col() == width as int / 2,
            g.count(Entity::Wall) == 5,
    {
        let mut tiles: Vec<Vec<Entity>> = Vec::new();
        let mut i: usize = 0;
        while i < height
            invariant
                i <= height,
                tiles@.len() == i,
                forall|k: int|
                    0 <= k < i ==> (#[trigger] tiles@[k])@.len() == width && forall|x: int|
                        0 <= x < width ==> tiles@[k]@[x] == Entity::Empty,
            decreases height - i,
        {
            let row: Vec<Entity> = vec![Entity::Empty; width];
            tiles.push(row);
            i += 1;
        }
        let mr = height / 2;
        let mc = width / 2;
        let mut g = Grid { width, height, tiles, mouse_pos: (mr, mc) };
        g.set_cell(mr, mc, Entity::Mouse);
        proof {
            assert(g.wf());
            lemma_count_absent(g, Entity::Wall, 0);
        }

        // Every cell but the Mouse cell is Empty now; list them all, in
        // row-major order, so each entry is listed once.
        let mut empties: Vec<(usize, usize)> = Vec::new();
        let mut yy: usize = 0;
        while yy < height
            invariant
                yy <= height,
                3 <= width <= 255,
                3 <= height <= 255,
                mr == height as int / 2,
                mc == width as int / 2,
                forall|m: int|
                    0 <= m < empties@.len() ==> {
                        let c = #[trigger] empties@[m];
                        &&& c.0 < yy
                        &&& c.1 < width
                        &&& !(c.0 == mr && c.1 == mc)
                    },
                forall|m: int, n: int|
                    0 <= m < n < empties@.len() ==> lex_lt(empties@[m], empties@[n]),
                empties@.len() + (if yy > mr {
                    1int
                } else {
                    0int
                }) == yy * width,
            decreases height - yy,
        {
            let mut xx: usize = 0;
            while xx < width
                invariant
                    xx <= width,
                    yy < height,
                    3 <= width <= 255,
                    3 <= height <= 255,
                    mr == height as int / 2,
                    mc == width as int / 2,
                    forall|m: int|
                        0 <= m < empties@.len() ==> {
                            let c = #[trigger] empties@[m];
                            &&& (c.0 < yy || (c.0 == yy && c.1 < xx))
                            &&& c.1 < width
                            &&& !(c.0 == mr && c.1 == mc)
                        },
                    forall|m: int, n: int|
                        0 <= m < n < empties@.len() ==> lex_lt(empties@[m], empties@[n]),
                    empties@.len() + (if yy > mr || (yy == mr && xx > mc) {
                        1int
                    } else {
                        0int
                    }) == yy * width + xx,
                decreases width - xx,
            {
                if !(yy == mr && xx == mc) {
                    empties.push((yy, xx));
                }
                xx += 1;
            }
            proof {
                assert((yy + 1) * width == yy * width + width) by (nonlinear_arith);
            }
            yy += 1;
        }
        proof {
            assert(height * width >= 9) by (nonlinear_arith)
                requires
                    3 <= width,
                    3 <= height,
            ;
            assert forall|m: int, n: int|
                0 <= m < n < empties@.len() implies empties@[m] != empties@[n] by {
                assert(lex_lt(empties@[m], empties@[n]));
            }
        }

        let mut placed: usize = 0;
        while placed < 5
            invariant
                placed <= 5,
                3 <= width <= 255,
                3 <= height <= 255,
                g.wf(),
                g.spec_width() == width,
                g.spec_height() == height,
                g.mouse_row() == mr,
                g.mouse_col() == mc,
                g.count(Entity::Wall) == placed,
                empties@.len() + placed == height * width - 1,
                height * width >= 9,
                forall|m: int|
                    0 <= m < empties@.len() ==> {
                        let c = #[trigger] empties@[m];
                        &&& c.0 < height
                        &&& c.1 < width
                        &&& g.cell(c.0 as int, c.1 as int) == Entity::Empty
                    },
                forall|m: int, n: int|
                    0 <= m < n < empties@.len() ==> empties@[m] != empties@[n],
            decreases 5 - placed,
        {
            let idx = crate::random::random_below(empties.len());
            let c = empties[idx];
            let y = c.0;
            let x = c.1;
            let ghost gprev = g;
            g.set_cell(y, x, Entity::Wall);
            proof {
                lemma_count_cell_update(gprev, g, Entity::Wall, y as int, x as int);
                assert(g.cell(g.mouse_row(), g.mouse_col()) == Entity::Mouse);
            }
            let ghost before = empties@;
            empties.swap_remove(idx);
            proof {
                assert forall|m: int| 0 <= m < empties@.len() implies {
                    let cc = #[trigger] empties@[m];
                    &&& cc.0 < height
                    &&& cc.1 < width
                    &&& g.cell(cc.0 as int, cc.1 as int) == Entity::Empty
                    &&& cc != c
                } by {
                    let cc = empties@[m];
                    if m == idx {
                        assert(cc == before[before.len() - 1]);
                    } else {
                        assert(cc == before[m]);
                    }
                    assert(cc != c);
                    assert(gprev.cell(cc.0 as int, cc.1 as int) == Entity::Empty);
                }
                assert forall|m: int, n: int|
                    0 <= m < n < empties@.len() implies empties@[m] != empties@[n] by {
                    let a = if m == idx {
                        before.len() - 1
                    } else {
                        m
                    };
                    let b = if n == idx {
                        before.len() - 1
                    } else {
                        n
                    };
                    assert(empties@[m] == before[a]);
                    assert(empties@[n] == before[b]);
                }
            }
            placed += 1;
        }
        g
    }

    /// Fill one uniformly random Empty neighbor of the Mouse with `entity`;
    /// GameOver, changing nothing, when the Mouse has no Empty neighbor.
    pub fn place_random(&mut self, entity: Entity) -> (r: TurnResult)
        requires
            old(self).wf(),
            entity != Entity::Mouse,
        ensures
            final(self).wf(),
            place_random_transition(*old(self), *final(self), entity, r),
    {
        let (mi, mj) = self.mouse_pos;
        let valid = self.get_valid_neighbours(mi, mj);
        proof {
            lemma_valid_neighbours_iff(*self, mi as int, mj as int);
        }
        if valid.len() > 0 {
            let idx = crate::random::random_below(valid.len());
            let c = valid[idx];
            proof {
                assert(valid@.contains(valid@[idx as int]));
            }
            let r = self.place(&c.0, &c.1, entity);
            proof {
                assert(r == TurnResult::Good);
                assert(0 <= idx < old(self).spec_valid_neighbours(mi as int, mj as int).len());
                assert(old(self).spec_valid_neighbours(mi as int, mj as int)[idx as int] == c);
                assert(place_transition(
                    *old(self),
                    *self,
                    c.0 as int,
                    c.1 as int,
                    entity,
                    TurnResult::Good,
                ));
            }
            r
        } else {
            TurnResult::GameOver
        }
    }
}

/// Row-major order on cell coordinates.
pub open spec fn lex_lt(a: (usize, usize), b: (usize, usize)) -> bool {
    a.0 < b.0 || (a.0 == b.0 && a.1 < b.1)
}

impl Grid {
    /// An Empty cell on the border: a seed of the escape-distance field.
    pub open spec fn border_empty(self, i: int, j: int) -> bool {
        self.in_bounds(i, j) && self.on_border(i, j) && self.cell(i, j) == Entity::Empty
    }

    /// The cells within `k` breadth-first steps of an Empty border cell,
    /// stepping through Empty cells only.
    pub open spec fn reach(self, k: nat) -> Set<(int, int)>
        decreases k,
    {
        if k == 0 {
            Set::new(|c: (int, int)| self.border_empty(c.0, c.1))
        } else {
            self.reach((k - 1) as nat).union(
                Set::new(
                    |c: (int, int)|
                        self.in_bounds(c.0, c.1) && self.cell(c.0, c.1) == Entity::Empty && exists|
                            d: (int, int),
                        |
                            #[trigger] self.reach((k - 1) as nat).contains(d) && is_neighbor(
                                d.0,
                                d.1,
                                c.0,
                                c.1,
                            ),
                ),
            )
        }
    }

    /// The cell can escape: it lies within some number of steps.
    pub open spec fn reachable(self, i: int, j: int) -> bool {
        exists|k: nat| self.reach(k).contains((i, j))
    }

    /// `k` is the exact escape distance of `(i, j)`.
    pub open spec fn dist_is(self, i: int, j: int, k: nat) -> bool {
        self.reach(k).contains((i, j)) && (k == 0 || !self.reach((k - 1) as nat).contains((i, j)))
    }

    /// The escape distance of `(i, j)`, as the field encodes it: the exact
    /// step count for a reachable cell, `i32::MAX` otherwise.
    pub open spec fn dist_code(self, i: int, j: int) -> int {
        if self.reachable(i, j) {
            (choose|k: nat| self.dist_is(i, j, k)) as int
        } else {
            i32::MAX as int
        }
    }
}

/// Reach sets only grow with the step count.
pub proof fn lemma_reach_monotone(g: Grid, k1: nat, k2: nat)
    requires
        k1 <= k2,
    ensures
        g.reach(k1).subset_of(g.reach(k2)),
    decreases k2,
{
    if k1 < k2 {
        lemma_reach_monotone(g, k1, (k2 - 1) as nat);
    }
}

/// Every reached cell is an in-bounds Empty cell.
pub proof fn lemma_reach_members_empty(g: Grid, k: nat)
    ensures
        forall|c: (int, int)|
            #[trigger] g.reach(k).contains(c) ==> g.in_bounds(c.0, c.1) && g.cell(c.0, c.1)
                == Entity::Empty,
    decreases k,
{
    if k > 0 {
        lemma_reach_members_empty(g, (k - 1) as nat);
        assert forall|c: (int, int)| #[trigger]
            g.reach(k).contains(c) implies g.in_bounds(c.0, c.1) && g.cell(c.0, c.1)
            == Entity::Empty by {
            if !g.reach((k - 1) as nat).contains(c) {
                assert(g.in_bounds(c.0, c.1) && g.cell(c.0, c.1) == Entity::Empty);
            }
        }
    }
}

/// A cell within `k` steps has an exact distance, at most `k`.
pub proof fn lemma_dist_exists(g: Grid, i: int, j: int, k: nat)
    requires
        g.reach(k).contains((i, j)),
    ensures
        exists|m: nat| m <= k && #[trigger] g.dist_is(i, j, m),
    decreases k,
{
    if k == 0 || !g.reach((k - 1) as nat).contains((i, j)) {
        assert(g.dist_is(i, j, k));
    } else {
        lemma_dist_exists(g, i, j, (k - 1) as nat);
    }
}

/// The exact distance is unique, and `dist_code` returns it.
pub proof fn lemma_dist_code_is(g: Grid, i: int, j: int, k: nat)
    requires
        g.dist_is(i, j, k),
    ensures
        g.dist_code(i, j) == k,
{
    assert(g.reachable(i, j));
    let m = choose|m: nat| g.dist_is(i, j, m);
    if m < k {
        lemma_reach_monotone(g, m, (k - 1) as nat);
    }
    if k < m {
        lemma_reach_monotone(g, k, (m - 1) as nat);
    }
}

/// A cell within `k` steps has a distance code of at most `k`.
pub proof fn lemma_dist_code_le(g: Grid, i: int, j: int, k: nat)
    requires
        g.reach(k).contains((i, j)),
    ensures
        g.dist_code(i, j) <= k,
{
    lemma_dist_exists(g, i, j, k);
    let m = choose|m: nat| m <= k && g.dist_is(i, j, m);
    lemma_dist_code_is(g, i, j, m);
}

/// Once one step adds nothing, no further step does.
pub proof fn lemma_reach_stable(g: Grid, k: nat, m: nat)
    requires
        g.reach(k + 1) == g.reach(k),
        m >= k,
    ensures
        g.reach(m) == g.reach(k),
    decreases m,
{
    if m > k {
        lemma_reach_stable(g, k, (m - 1) as nat);
        assert(g.reach(m) =~= g.reach((m - 1) as nat)) by {
            assert forall|c: (int, int)| #[trigger]
                g.reach(m).contains(c) implies g.reach((m - 1) as nat).contains(c) by {
                if !g.reach((m - 1) as nat).contains(c) {
                    let d = choose|d: (int, int)|
                        #[trigger] g.reach((m - 1) as nat).contains(d) && is_neighbor(
                            d.0,
                            d.1,
                            c.0,
                            c.1,
                        );
                    assert(g.reach(k).contains(d));
                    assert(g.reach(k + 1).contains(c));
                    assert(g.reach((m - 1) as nat).contains(c));
                }
            }
        }
    }
}

/// The matrix has `h` rows of `w` entries.
pub open spec fn mat_dims(m: Seq<Vec<i32>>, h: int, w: int) -> bool {
    m.len() == h && forall|a: int| 0 <= a < h ==> (#[trigger] m[a])@.len() == w
}

/// Number of entries of `row` from `j` on that differ from `i32::MAX`.
pub open spec fn row_visited(row: Seq<i32>, j: int) -> nat
    decreases row.len() - j,
{
    if j < 0 || j >= row.len() {
        0
    } else {
        (if row[j] != i32::MAX {
            1nat
        } else {
            0nat
        }) + row_visited(row, j + 1)
    }
}

/// Number of entries of the matrix from row `i` on that differ from
/// `i32::MAX`.
pub open spec fn visited_from(m: Seq<Vec<i32>>, i: int) -> nat
    decreases m.len() - i,
{
    if i < 0 || i >= m.len() {
        0
    } else {
        row_visited(m[i]@, 0) + visited_from(m, i + 1)
    }
}

/// Number of entries of the matrix that differ from `i32::MAX`.
pub open spec fn visited_count(m: Seq<Vec<i32>>) -> nat {
    visited_from(m, 0)
}

/// Rows with equal entries from `j` on count alike.
proof fn lemma_row_visited_eq(r1: Seq<i32>, r2: Seq<i32>, j: int)
    requires
        r1.len() == r2.len(),
        forall|x: int| j <= x < r1.len() ==> r1[x] == r2[x],
    ensures
        row_visited(r1, j) == row_visited(r2, j),
    decreases r1.len() - j,
{
    if 0 <= j < r1.len() {
        lemma_row_visited_eq(r1, r2, j + 1);
    } else if j < 0 {
        lemma_row_visited_eq(r1, r2, 0);
    }
}

/// Matrices with equal entries from row `i` on count alike.
proof fn lemma_visited_from_eq(m1: Seq<Vec<i32>>, m2: Seq<Vec<i32>>, i: int)
    requires
        m1.len() == m2.len(),
        forall|a: int| 0 <= a < m1.len() ==> (#[trigger] m1[a])@.len() == m2[a]@.len(),
        forall|a: int, b: int|
            i <= a < m1.len() && 0 <= b < m1[a]@.len() ==> #[trigger] (m1[a]@[b]) == m2[a]@[b],
    ensures
        visited_from(m1, i) == visited_from(m2, i),
    decreases m1.len() - i,
{
    if 0 <= i < m1.len() {
        lemma_row_visited_eq(m1[i]@, m2[i]@, 0);
        lemma_visited_from_eq(m1, m2, i + 1);
    } else if i < 0 {
        lemma_visited_from_eq(m1, m2, 0);
    }
}

/// Changing the one entry `(i, x)` of a row from `i32::MAX` to another value
/// raises the row count by one.
proof fn lemma_row_visited_set(r1: Seq<i32>, r2: Seq<i32>, x: int, j: int)
    requires
        r1.len() == r2.len(),
        0 <= j <= x < r1.len(),
        forall|c: int| j <= c < r1.len() && c != x ==> r1[c] == r2[c],
        r1[x] == i32::MAX,
        r2[x] != i32::MAX,
    ensures
        row_visited(r2, j) == row_visited(r1, j) + 1,
    decreases x - j,
{
    if j == x {
        lemma_row_visited_eq(r1, r2, j + 1);
    } else {
        lemma_row_visited_set(r1, r2, x, j + 1);
    }
}

/// Changing the one entry `(y, x)` from `i32::MAX` to another value raises
/// the count by one.
proof fn lemma_visited_set_from(m1: Seq<Vec<i32>>, m2: Seq<Vec<i32>>, y: int, x: int, i: int)
    requires
        m1.len() == m2.len(),
        0 <= i <= y < m1.len(),
        0 <= x < m1[y]@.len(),
        forall|a: int| 0 <= a < m1.len() ==> (#[trigger] m1[a])@.len() == m2[a]@.len(),
        forall|a: int, b: int|
            0 <= a < m1.len() && 0 <= b < m1[a]@.len() && !(a == y && b == x)
                ==> #[trigger] (m1[a]@[b]) == m2[a]@[b],
        m1[y]@[x] == i32::MAX,
        m2[y]@[x] != i32::MAX,
    ensures
        visited_from(m2, i) == visited_from(m1, i) + 1,
    decreases y - i,
{
    if i == y {
        lemma_row_visited_set(m1[y]@, m2[y]@, x, 0);
        lemma_visited_from_eq(m1, m2, y + 1);
    } else {
        lemma_row_visited_eq(m1[i]@, m2[i]@, 0);
        lemma_visited_set_from(m1, m2, y, x, i + 1);
    }
}

/// The count-level corollary of `lemma_visited_set_from`.
proof fn lemma_visited_set(m1: Seq<Vec<i32>>, m2: Seq<Vec<i32>>, y: int, x: int)
    requires
        m1.len() == m2.len(),
        0 <= y < m1.len(),
        0 <= x < m1[y]@.len(),
        forall|a: int| 0 <= a < m1.len() ==> (#[trigger] m1[a])@.len() == m2[a]@.len(),
        forall|a: int, b: int|
            0 <= a < m1.len() && 0 <= b < m1[a]@.len() && !(a == y && b == x)
                ==> #[trigger] (m1[a]@[b]) == m2[a]@[b],
        m1[y]@[x] == i32::MAX,
        m2[y]@[x] != i32::MAX,
    ensures
        visited_count(m2) == visited_count(m1) + 1,
{
    lemma_visited_set_from(m1, m2, y, x, 0);
}

/// A row of `i32::MAX` entries counts zero.
proof fn lemma_row_visited_none(r: Seq<i32>, j: int)
    requires
        forall|x: int| j <= x < r.len() ==> r[x] == i32::MAX,
    ensures
        row_visited(r, j) == 0,
    decreases r.len() - j,
{
    if 0 <= j < r.len() {
        lemma_row_visited_none(r, j + 1);
    } else if j < 0 {
        lemma_row_visited_none(r, 0);
    }
}

/// A matrix of `i32::MAX` entries counts zero.
proof fn lemma_visited_none(m: Seq<Vec<i32>>, i: int)
    requires
        forall|a: int, b: int|
            0 <= a < m.len() && 0 <= b < m[a]@.len() ==> #[trigger] (m[a]@[b]) == i32::MAX,
    ensures
        visited_from(m, i) == 0,
    decreases m.len() - i,
{
    if 0 <= i < m.len() {
        assert forall|x: int| 0 <= x < m[i]@.len() implies m[i]@[x] == i32::MAX by {}
        lemma_row_visited_none(m[i]@, 0);
        lemma_visited_none(m, i + 1);
    } else if i < 0 {
        lemma_visited_none(m, 0);
    }
}

/// A row counts at most its width.
proof fn lemma_row_visited_bound(r: Seq<i32>, j: int)
    requires
        j >= 0,
    ensures
        row_visited(r, j) <= r.len() - j || row_visited(r, j) == 0,
        row_visited(r, j) + j <= r.len() || row_visited(r, j) == 0,
    decreases r.len() - j,
{
    if 0 <= j < r.len() {
        lemma_row_visited_bound(r, j + 1);
    }
}

/// A matrix of rows of width `w` counts at most `w` per row.
proof fn lemma_visited_bound(m: Seq<Vec<i32>>, w: int, i: int)
    requires
        i >= 0,
        w >= 0,
        forall|a: int| 0 <= a < m.len() ==> (#[trigger] m[a])@.len() == w,
    ensures
        visited_from(m, i) <= (m.len() - i) * w || visited_from(m, i) == 0,
    decreases m.len() - i,
{
    if 0 <= i < m.len() {
        lemma_row_visited_bound(m[i]@, 0);
        lemma_visited_bound(m, w, i + 1);
        assert(visited_from(m, i) <= (m.len() - i) * w) by (nonlinear_arith)
            requires
                visited_from(m, i) == row_visited(m[i]@, 0) + visited_from(m, i + 1),
                row_visited(m[i]@, 0) <= w,
                visited_from(m, i + 1) <= (m.len() - i - 1) * w || visited_from(m, i + 1) == 0,
                visited_from(m, i + 1) >= 0,
                w >= 0,
                i < m.len(),
        ;
    }
}

/// The whole matrix counts at most height times width.
proof fn lemma_visited_count_bound(m: Seq<Vec<i32>>, h: int, w: int)
    requires
        m.len() == h,
        h >= 0,
        w >= 0,
        forall|a: int| 0 <= a < m.len() ==> (#[trigger] m[a])@.len() == w,
    ensures
        visited_count(m) <= h * w,
{
    lemma_visited_bound(m, w, 0);
    assert(h * w >= 0) by (nonlinear_arith)
        requires
            h >= 0,
            w >= 0,
    ;
}

/// A cell reached at step `k + 1` but not at `k` is an in-bounds Empty cell
/// next to a cell reached at step `k`.
pub proof fn lemma_reach_step(g: Grid, k: nat, c: (int, int))
    requires
        g.reach(k + 1).contains(c),
        !g.reach(k).contains(c),
    ensures
        g.in_bounds(c.0, c.1),
        g.cell(c.0, c.1) == Entity::Empty,
        exists|d: (int, int)|
            #[trigger] g.reach(k).contains(d) && is_neighbor(d.0, d.1, c.0, c.1),
{
    assert(g.reach(k + 1) == g.reach(((k + 1) - 1) as nat).union(
        Set::new(
            |cc: (int, int)|
                g.in_bounds(cc.0, cc.1) && g.cell(cc.0, cc.1) == Entity::Empty && exists|
                    d: (int, int),
                |
                    #[trigger] g.reach(((k + 1) - 1) as nat).contains(d) && is_neighbor(
                        d.0,
                        d.1,
                        cc.0,
                        cc.1,
                    ),
        ),
    ));
}

/// An in-bounds Empty cell next to a cell reached at step `k` is reached at
/// step `k + 1`.
pub proof fn lemma_reach_extend(g: Grid, k: nat, d: (int, int), c: (int, int))
    requires
        g.reach(k).contains(d),
        is_neighbor(d.0, d.1, c.0, c.1),
        g.in_bounds(c.0, c.1),
        g.cell(c.0, c.1) == Entity::Empty,
    ensures
        g.reach(k + 1).contains(c),
{
    assert(g.reach(((k + 1) - 1) as nat).contains(d) && is_neighbor(d.0, d.1, c.0, c.1));
}

/// Overwrite one entry of an i32 matrix.
fn set_entry(m: &mut Vec<Vec<i32>>, i: usize, j: usize, v: i32)
    requires
        i < old(m)@.len(),
        j < old(m)@[i as int]@.len(),
    ensures
        final(m)@.len() == old(m)@.len(),
        forall|a: int|
            0 <= a < old(m)@.len() ==> (#[trigger] final(m)@[a])@.len() == old(m)@[a]@.len(),
        final(m)@[i as int]@[j as int] == v,
        forall|a: int, b: int|
            0 <= a < old(m)@.len() && 0 <= b < old(m)@[a]@.len() && !(a == i && b == j)
                ==> #[trigger] final(m)@[a]@[b] == old(m)@[a]@[b],
    {
    m[i][j] = v;
    proof {
        assert(m@[i as int]@ == old(m)@[i as int]@.update(j as int, v));
        assert(forall|a: int|
            0 <= a < old(m)@.len() && a != i ==> #[trigger] m@[a] == old(m)@[a]);
    }
}

impl Grid {
    /// The AI's escape-distance field: breadth-first distance of every Empty
    /// cell from the set of Empty border cells, through Empty cells, with
    /// `i32::MAX` for the unreached (and non-Empty) cells.
    fn get_distance_map(&self) -> (r: Vec<Vec<i32>>)
        requires
            self.wf(),
        ensures
            r@.len() == self.spec_height(),
            forall|i: int| 0 <= i < r@.len() ==> (#[trigger] r@[i])@.len() == self.spec_width(),
            forall|i: int, j: int|
                self.in_bounds(i, j) ==> #[trigger] (r@[i]@[j]) as int == self.dist_code(i, j),
    {
        let h = self.height;
        let w = self.width;
        let mut dist: Vec<Vec<i32>> = Vec::new();
        let mut i: usize = 0;
        while i < h
            invariant
                i <= h,
                dist@.len() == i,
                forall|a: int| 0 <= a < i ==> (#[trigger] dist@[a])@.len() == w,
                forall|a: int, b: int|
                    0 <= a < i && 0 <= b < w ==> #[trigger] (dist@[a]@[b]) == i32::MAX,
            decreases h - i,
        {
            let row: Vec<i32> = vec![i32::MAX; w];
            dist.push(row);
            i += 1;
        }
        proof {
            lemma_visited_none(dist@, 0);
        }

        // seed: every Empty border cell is at distance zero
        let mut frontier: Vec<(usize, usize)> = Vec::new();
        let mut y: usize = 0;
        while y < h
            invariant
                y <= h,
                h == self.spec_height(),
                w == self.spec_width(),
                self.wf(),
                mat_dims(dist@, h as int, w as int),
                forall|i: int, j: int|
                    self.in_bounds(i, j) ==> (#[trigger] (dist@[i]@[j]) != i32::MAX <==> (i < y
                        && self.border_empty(i, j))),
                forall|i: int, j: int|
                    self.in_bounds(i, j) && #[trigger] (dist@[i]@[j]) != i32::MAX ==> dist@[i]@[j]
                        == 0,
                forall|m: int|
                    0 <= m < frontier@.len() ==> {
                        let c = #[trigger] frontier@[m];
                        &&& c.0 < h
                        &&& c.1 < w
                        &&& dist@[c.0 as int]@[c.1 as int] == 0
                    },
                forall|i: int, j: int|
                    self.in_bounds(i, j) && #[trigger] (dist@[i]@[j]) != i32::MAX
                        ==> frontier@.contains((i as usize, j as usize)),
                visited_count(dist@) == frontier@.len(),
            decreases h - y,
        {
            let mut x: usize = 0;
            while x < w
                invariant
                    x <= w,
                    y < h,
                    h == self.spec_height(),
                    w == self.spec_width(),
                    self.wf(),
                    mat_dims(dist@, h as int, w as int),
                    forall|i: int, j: int|
                        self.in_bounds(i, j) ==> (#[trigger] (dist@[i]@[j]) != i32::MAX <==> ((i
                            < y || (i == y && j < x)) && self.border_empty(i, j))),
                    forall|i: int, j: int|
                        self.in_bounds(i, j) && #[trigger] (dist@[i]@[j]) != i32::MAX
                            ==> dist@[i]@[j] == 0,
                    forall|m: int|
                        0 <= m < frontier@.len() ==> {
                            let c = #[trigger] frontier@[m];
                            &&& c.0 < h
                            &&& c.1 < w
                            &&& dist@[c.0 as int]@[c.1 as int] == 0
                        },
                    forall|i: int, j: int|
                        self.in_bounds(i, j) && #[trigger] (dist@[i]@[j]) != i32::MAX
                            ==> frontier@.contains((i as usize, j as usize)),
                    visited_count(dist@) == frontier@.len(),
                decreases w - x,
            {
                if (y == 0 || y == h - 1 || x == 0 || x == w - 1) {
                    let e = self.tiles[y][x];
                    if e == Entity::Empty {
                        let ghost dprev = dist@;
                        let ghost fprev = frontier@;
                        set_entry(&mut dist, y, x, 0);
                        frontier.push((y, x));
                        proof {
                            lemma_visited_set(dprev, dist@, y as int, x as int);
                            assert forall|i: int, j: int|
                                self.in_bounds(i, j) && #[trigger] (dist@[i]@[j])
                                    != i32::MAX implies frontier@.contains(
                                (i as usize, j as usize),
                            ) by {
                                if i == y && j == x {
                                    assert(frontier@[frontier@.len() - 1] == (
                                        i as usize,
                                        j as usize,
                                    ));
                                } else {
                                    assert(dprev[i]@[j] != i32::MAX);
                                    let m = choose|m: int|
                                        0 <= m < fprev.len() && fprev[m] == (
                                            i as usize,
                                            j as usize,
                                        );
                                    assert(frontier@[m] == (i as usize, j as usize));
                                }
                            }
                        }
                    }
                }
                x += 1;
            }
            y += 1;
        }

        proof {
            assert(w * h <= 65025) by (nonlinear_arith)
                requires
                    w <= 255,
                    h <= 255,
            ;
            assert forall|i: int, j: int|
                self.in_bounds(i, j) && #[trigger] (dist@[i]@[j]) != i32::MAX implies 0
                <= dist@[i]@[j] <= 0 && self.dist_is(i, j, dist@[i]@[j] as nat) by {
                assert(self.border_empty(i, j));
                assert(self.reach(0).contains((i, j)));
            }
            assert forall|c: (int, int)| #[trigger]
                self.reach(0nat).contains(c) implies dist@[c.0]@[c.1] != i32::MAX by {
                assert(self.border_empty(c.0, c.1));
            }
            lemma_visited_count_bound(dist@, h as int, w as int);
            assert((h as int) * (w as int) == (w as int) * (h as int)) by (nonlinear_arith);
        }

        let mut level: usize = 0;
        while frontier.len() > 0 && level <= w * h
            invariant
                h == self.spec_height(),
                w == self.spec_width(),
                self.wf(),
                w * h <= 65025,
                level <= w * h + 1,
                mat_dims(dist@, h as int, w as int),
                forall|i: int, j: int|
                    self.in_bounds(i, j) && #[trigger] (dist@[i]@[j]) != i32::MAX ==> 0
                        <= dist@[i]@[j] <= level && self.dist_is(i, j, dist@[i]@[j] as nat),
                forall|c: (int, int)| #[trigger]
                    self.reach(level as nat).contains(c) ==> dist@[c.0]@[c.1] != i32::MAX,
                forall|m: int|
                    0 <= m < frontier@.len() ==> {
                        let c = #[trigger] frontier@[m];
                        &&& c.0 < h
                        &&& c.1 < w
                        &&& dist@[c.0 as int]@[c.1 as int] == level
                        &&& self.dist_is(c.0 as int, c.1 as int, level as nat)
                    },
                forall|i: int, j: int|
                    self.in_bounds(i, j) && #[trigger] (dist@[i]@[j]) == level
                        ==> frontier@.contains((i as usize, j as usize)),
                visited_count(dist@) <= w * h,
                frontier@.len() > 0 ==> visited_count(dist@) >= level + frontier@.len(),
            decreases w * h + 1 - level,
        {
            let lnext = level + 1;
            let next = self.bfs_pass(&mut dist, &frontier, level);
            proof {
                lemma_visited_count_bound(dist@, h as int, w as int);
                assert((h as int) * (w as int) == (w as int) * (h as int)) by (nonlinear_arith);
                assert((lnext as nat) == ((level + 1) as nat));
                assert forall|c: (int, int)| #[trigger]
                    self.reach(lnext as nat).contains(c) implies dist@[c.0]@[c.1]
                    != i32::MAX by {
                    assert(self.reach((level + 1) as nat).contains(c));
                }
                assert forall|i: int, j: int|
                    self.in_bounds(i, j) && #[trigger] (dist@[i]@[j])
                        != i32::MAX implies 0 <= dist@[i]@[j] <= lnext && self.dist_is(
                    i,
                    j,
                    dist@[i]@[j] as nat,
                ) by {}
                assert forall|m: int| 0 <= m < next@.len() implies {
                    let c = #[trigger] next@[m];
                    &&& c.0 < h
                    &&& c.1 < w
                    &&& dist@[c.0 as int]@[c.1 as int] == lnext
                    &&& self.dist_is(c.0 as int, c.1 as int, lnext as nat)
                } by {
                    assert(self.dist_is(
                        next@[m].0 as int,
                        next@[m].1 as int,
                        (level + 1) as nat,
                    ));
                }
            }
            frontier = next;
            level = lnext;
        }

        proof {
            if frontier@.len() > 0 {
                lemma_visited_count_bound(dist@, h as int, w as int);
                assert(false);
            }
            let base: nat = if level == 0 {
                0nat
            } else {
                (level - 1) as nat
            };
            assert(self.reach(base + 1) =~= self.reach(base)) by {
                assert forall|c: (int, int)| #[trigger]
                    self.reach(base + 1).contains(c) implies self.reach(base).contains(c) by {
                    if !self.reach(base).contains(c) {
                        if level == 0 {
                            let d = choose|d: (int, int)|
                                #[trigger] self.reach(0nat).contains(d) && is_neighbor(
                                    d.0,
                                    d.1,
                                    c.0,
                                    c.1,
                                );
                            assert(dist@[d.0]@[d.1] != i32::MAX);
                            assert(frontier@.contains((d.0 as usize, d.1 as usize)));
                            assert(false);
                        } else {
                            assert(self.reach(level as nat).contains(c)) by {
                                lemma_reach_monotone(*self, base + 1, level as nat);
                            }
                            assert(dist@[c.0]@[c.1] != i32::MAX);
                            lemma_reach_members_empty(*self, level as nat);
                            let v = dist@[c.0]@[c.1];
                            assert(self.dist_is(c.0, c.1, v as nat));
                            if v == level {
                                assert(frontier@.contains((c.0 as usize, c.1 as usize)));
                                assert(false);
                            }
                            assert(v <= level - 1);
                            lemma_reach_monotone(*self, v as nat, base);
                            assert(self.reach(base).contains(c));
                        }
                    }
                }
            }
            assert forall|i: int, j: int| self.in_bounds(i, j) implies #[trigger] (
            dist@[i]@[j]) as int == self.dist_code(i, j) by {
                if dist@[i]@[j] != i32::MAX {
                    lemma_dist_code_is(*self, i, j, dist@[i]@[j] as nat);
                } else {
                    if self.reachable(i, j) {
                        let k = choose|k: nat| self.reach(k).contains((i, j));
                        if k <= base {
                            lemma_reach_monotone(*self, k, base);
                        } else {
                            lemma_reach_stable(*self, base, k);
                        }
                        assert(self.reach(base).contains((i, j)));
                        lemma_reach_monotone(*self, base, level as nat);
                        assert(dist@[i]@[j] != i32::MAX);
                    }
                }
            }
        }
        dist
    }

    /// One breadth-first level: stamp every unvisited Empty neighbor of the
    /// frontier with `level + 1` and collect those cells as the next
    /// frontier.
    fn bfs_pass(
        &self,
        dist: &mut Vec<Vec<i32>>,
        frontier: &Vec<(usize, usize)>,
        level: usize,
    ) -> (next: Vec<(usize, usize)>)
        requires
            self.wf(),
            level + 1 <= 65026,
            mat_dims(old(dist)@, self.spec_height(), self.spec_width()),
            forall|m: int|
                0 <= m < frontier@.len() ==> {
                    let c = #[trigger] frontier@[m];
                    &&& (c.0 as int) < self.spec_height()
                    &&& (c.1 as int) < self.spec_width()
                    &&& old(dist)@[c.0 as int]@[c.1 as int] == level
                    &&& self.dist_is(c.0 as int, c.1 as int, level as nat)
                },
            forall|i: int, j: int|
                self.in_bounds(i, j) && #[trigger] (old(dist)@[i]@[j]) != i32::MAX ==> 0 <= old(dist)@[i]@[j] <= level && self.dist_is(i, j, old(dist)@[i]@[j] as nat),
            forall|c: (int, int)| #[trigger]
                self.reach(level as nat).contains(c) ==> old(dist)@[c.0]@[c.1] != i32::MAX,
            forall|i: int, j: int|
                self.in_bounds(i, j) && #[trigger] (old(dist)@[i]@[j]) == level
                    ==> frontier@.contains((i as usize, j as usize)),
        ensures
            mat_dims(final(dist)@, self.spec_height(), self.spec_width()),
            forall|i: int, j: int|
                self.in_bounds(i, j) && #[trigger] (old(dist)@[i]@[j]) != i32::MAX ==> final(dist)@[i]@[j] == old(dist)@[i]@[j],
            forall|i: int, j: int|
                self.in_bounds(i, j) && #[trigger] (final(dist)@[i]@[j]) != i32::MAX ==> 0
                    <= final(dist)@[i]@[j] <= level + 1 && self.dist_is(
                    i,
                    j,
                    final(dist)@[i]@[j] as nat,
                ),
            forall|c: (int, int)| #[trigger]
                self.reach((level + 1) as nat).contains(c) ==> final(dist)@[c.0]@[c.1]
                    != i32::MAX,
            forall|m: int|
                0 <= m < next@.len() ==> {
                    let c = #[trigger] next@[m];
                    &&& (c.0 as int) < self.spec_height()
                    &&& (c.1 as int) < self.spec_width()
                    &&& final(dist)@[c.0 as int]@[c.1 as int] == level + 1
                    &&& self.dist_is(c.0 as int, c.1 as int, (level + 1) as nat)
                },
            forall|i: int, j: int|
                self.in_bounds(i, j) && #[trigger] (final(dist)@[i]@[j]) == level + 1
                    ==> next@.contains((i as usize, j as usize)),
            visited_count(final(dist)@) == visited_count(old(dist)@) + next@.len(),
    {
        let h = self.height;
        let w = self.width;
        let mut next: Vec<(usize, usize)> = Vec::new();
        let mut fi: usize = 0;
        while fi < frontier.len()
            invariant
                fi <= frontier@.len(),
                h == self.spec_height(),
                w == self.spec_width(),
                self.wf(),
                level + 1 <= 65026,
                mat_dims(dist@, h as int, w as int),
                forall|m: int|
                    0 <= m < frontier@.len() ==> {
                        let c = #[trigger] frontier@[m];
                        &&& c.0 < h
                        &&& c.1 < w
                        &&& dist@[c.0 as int]@[c.1 as int] == level
                        &&& self.dist_is(c.0 as int, c.1 as int, level as nat)
                    },
                forall|i: int, j: int|
                    self.in_bounds(i, j) && #[trigger] (old(dist)@[i]@[j]) != i32::MAX
                        ==> dist@[i]@[j] == old(dist)@[i]@[j],
                forall|c: (int, int)| #[trigger]
                    self.reach(level as nat).contains(c) ==> old(dist)@[c.0]@[c.1] != i32::MAX,
                forall|i: int, j: int|
                    self.in_bounds(i, j) && #[trigger] (old(dist)@[i]@[j]) == level
                        ==> frontier@.contains((i as usize, j as usize)),
                forall|i: int, j: int|
                    self.in_bounds(i, j) && #[trigger] (dist@[i]@[j]) != i32::MAX ==> 0
                        <= dist@[i]@[j] <= level + 1 && self.dist_is(i, j, dist@[i]@[j] as nat),
                forall|i: int, j: int|
                    self.in_bounds(i, j) && #[trigger] (dist@[i]@[j]) != i32::MAX && old(dist)@[i]@[j] == i32::MAX ==> dist@[i]@[j] == level + 1,
                forall|i: int, j: int|
                    self.in_bounds(i, j) && #[trigger] (dist@[i]@[j]) == level
                        ==> frontier@.contains((i as usize, j as usize)),
                forall|m: int|
                    0 <= m < next@.len() ==> {
                        let c = #[trigger] next@[m];
                        &&& c.0 < h
                        &&& c.1 < w
                        &&& dist@[c.0 as int]@[c.1 as int] == level + 1
                        &&& self.dist_is(c.0 as int, c.1 as int, (level + 1) as nat)
                    },
                forall|i: int, j: int|
                    self.in_bounds(i, j) && #[trigger] (dist@[i]@[j]) == level + 1
                        ==> next@.contains((i as usize, j as usize)),
                forall|mm: int, cc: (int, int)|
                    0 <= mm < fi && #[trigger] self.is_empty_neighbor(
                        frontier@[mm].0 as int,
                        frontier@[mm].1 as int,
                        cc.0,
                        cc.1,
                    ) ==> dist@[cc.0]@[cc.1] != i32::MAX,
                visited_count(dist@) == visited_count(old(dist)@) + next@.len(),
            decreases frontier@.len() - fi,
        {
            let c = frontier[fi];
            let nbrs = self.get_valid_neighbours(c.0, c.1);
            proof {
                lemma_valid_neighbours_iff(*self, c.0 as int, c.1 as int);
            }
            let mut ni: usize = 0;
            while ni < nbrs.len()
                invariant
                    ni <= nbrs@.len(),
                    fi < frontier@.len(),
                    c == frontier@[fi as int],
                    c.0 < h,
                    c.1 < w,
                    h == self.spec_height(),
                    w == self.spec_width(),
                    self.wf(),
                    level + 1 <= 65026,
                    mat_dims(dist@, h as int, w as int),
                    nbrs@ == self.spec_valid_neighbours(c.0 as int, c.1 as int),
                    forall|m: int|
                        0 <= m < nbrs@.len() ==> self.is_empty_neighbor(
                            c.0 as int,
                            c.1 as int,
                            (#[trigger] nbrs@[m]).0 as int,
                            nbrs@[m].1 as int,
                        ),
                    forall|m: int|
                        0 <= m < frontier@.len() ==> {
                            let cf = #[trigger] frontier@[m];
                            &&& cf.0 < h
                            &&& cf.1 < w
                            &&& dist@[cf.0 as int]@[cf.1 as int] == level
                            &&& self.dist_is(cf.0 as int, cf.1 as int, level as nat)
                        },
                    forall|i: int, j: int|
                        self.in_bounds(i, j) && #[trigger] (old(dist)@[i]@[j]) != i32::MAX
                            ==> dist@[i]@[j] == old(dist)@[i]@[j],
                    forall|c: (int, int)| #[trigger]
                        self.reach(level as nat).contains(c) ==> old(dist)@[c.0]@[c.1]
                            != i32::MAX,
                    forall|i: int, j: int|
                        self.in_bounds(i, j) && #[trigger] (dist@[i]@[j]) != i32::MAX ==> 0
                            <= dist@[i]@[j] <= level + 1 && self.dist_is(
                            i,
                            j,
                            dist@[i]@[j] as nat,
                        ),
                    forall|i: int, j: int|
                        self.in_bounds(i, j) && #[trigger] (dist@[i]@[j]) != i32::MAX && old(dist)@[i]@[j] == i32::MAX ==> dist@[i]@[j] == level + 1,
                    forall|i: int, j: int|
                        self.in_bounds(i, j) && #[trigger] (dist@[i]@[j]) == level
                            ==> frontier@.contains((i as usize, j as usize)),
                    forall|m: int|
                        0 <= m < next@.len() ==> {
                            let cn = #[trigger] next@[m];
                            &&& cn.0 < h
                            &&& cn.1 < w
                            &&& dist@[cn.0 as int]@[cn.1 as int] == level + 1
                            &&& self.dist_is(cn.0 as int, cn.1 as int, (level + 1) as nat)
                        },
                    forall|i: int, j: int|
                        self.in_bounds(i, j) && #[trigger] (dist@[i]@[j]) == level + 1
                            ==> next@.contains((i as usize, j as usize)),
                    forall|mm: int, cc: (int, int)|
                        0 <= mm < fi && #[trigger] self.is_empty_neighbor(
                            frontier@[mm].0 as int,
                            frontier@[mm].1 as int,
                            cc.0,
                            cc.1,
                        ) ==> dist@[cc.0]@[cc.1] != i32::MAX,
                    forall|m: int|
                        0 <= m < ni ==> dist@[(#[trigger] nbrs@[m]).0 as int]@[nbrs@[m].1 as int]
                            != i32::MAX,
                    visited_count(dist@) == visited_count(old(dist)@) + next@.len(),
                decreases nbrs@.len() - ni,
            {
                let nb = nbrs[ni];
                if dist[nb.0][nb.1] == i32::MAX {
                    proof {
                        let nbi = nb.0 as int;
                        let nbj = nb.1 as int;
                        let ci = c.0 as int;
                        let cj = c.1 as int;
                        assert(self.is_empty_neighbor(ci, cj, nbi, nbj));
                        assert(old(dist)@[nbi]@[nbj] == i32::MAX) by {
                            if old(dist)@[nbi]@[nbj] != i32::MAX {
                                assert(dist@[nbi]@[nbj] == old(dist)@[nbi]@[nbj]);
                            }
                        }
                        assert(self.reach(level as nat).contains((ci, cj)));
                        lemma_reach_extend(*self, level as nat, (ci, cj), (nbi, nbj));
                        assert(self.reach((level + 1) as nat).contains((nbi, nbj)));
                        assert(!self.reach(level as nat).contains((nbi, nbj)));
                        assert(self.dist_is(nbi, nbj, (level + 1) as nat));
                    }
                    let ghost dprev = dist@;
                    let ghost nprev = next@;
                    set_entry(dist, nb.0, nb.1, (level + 1) as i32);
                    next.push(nb);
                    proof {
                        lemma_visited_set(dprev, dist@, nb.0 as int, nb.1 as int);
                        assert forall|i: int, j: int|
                            self.in_bounds(i, j) && #[trigger] (dist@[i]@[j])
                                == level + 1 implies next@.contains((i as usize, j as usize)) by {
                            if i == nb.0 && j == nb.1 {
                                assert(next@[next@.len() - 1] == (i as usize, j as usize));
                            } else {
                                assert(dprev[i]@[j] == level + 1);
                                let m = choose|m: int|
                                    0 <= m < nprev.len() && nprev[m] == (i as usize, j as usize);
                                assert(next@[m] == (i as usize, j as usize));
                            }
                        }
                    }
                }
                ni += 1;
            }
            proof {
                assert forall|cc: (int, int)| #[trigger] self.is_empty_neighbor(
                    c.0 as int,
                    c.1 as int,
                    cc.0,
                    cc.1,
                ) implies dist@[cc.0]@[cc.1] != i32::MAX by {
                    lemma_valid_neighbours_iff(*self, c.0 as int, c.1 as int);
                    assert(cc.0 >= 0 && cc.1 >= 0);
                    assert(nbrs@.contains((cc.0 as usize, cc.1 as usize)));
                    let m = choose|m: int|
                        0 <= m < nbrs@.len() && nbrs@[m] == (cc.0 as usize, cc.1 as usize);
                    assert(dist@[nbrs@[m].0 as int]@[nbrs@[m].1 as int] != i32::MAX);
                }
            }
            fi += 1;
        }
        proof {
            assert forall|cc: (int, int)| #[trigger]
                self.reach((level + 1) as nat).contains(cc) implies dist@[cc.0]@[cc.1]
                != i32::MAX by {
                lemma_reach_members_empty(*self, level as nat);
                if !self.reach(level as nat).contains(cc) {
                    lemma_reach_step(*self, level as nat, cc);
                    let d = choose|d: (int, int)|
                        #[trigger] self.reach(level as nat).contains(d) && is_neighbor(
                            d.0,
                            d.1,
                            cc.0,
                            cc.1,
                        );
                    assert(old(dist)@[d.0]@[d.1] != i32::MAX);
                    assert(dist@[d.0]@[d.1] == old(dist)@[d.0]@[d.1]);
                    let v = dist@[d.0]@[d.1];
                    assert(self.dist_is(d.0, d.1, v as nat));
                    if v == level {
                        assert(frontier@.contains((d.0 as usize, d.1 as usize)));
                        let m = choose|m: int|
                            0 <= m < frontier@.len() && frontier@[m] == (
                                d.0 as usize,
                                d.1 as usize,
                            );
                        assert(self.is_empty_neighbor(
                            frontier@[m].0 as int,
                            frontier@[m].1 as int,
                            cc.0,
                            cc.1,
                        ));
                    } else {
                        assert(v <= level - 1);
                        assert(self.reach(v as nat).contains((d.0, d.1)));
                        lemma_reach_monotone(*self, v as nat, (level - 1) as nat);
                        lemma_reach_extend(*self, (level - 1) as nat, d, cc);
                        assert(self.reach(level as nat).contains(cc));
                        assert(false);
                    }
                }
            }
        }
        next
    }

    /// The AI Mouse move: among the Empty neighbors of the Mouse, step to
    /// the one nearest the border by the escape-distance field, the earliest
    /// such neighbor in the fixed offset order; GameOver when there is none,
    /// or when the step reaches the border.
    pub fn move_mouse_random(&mut self) -> (r: TurnResult)
        requires
            old(self).wf(),
        ensures
            final(self).wf(),
            ai_move_transition(*old(self), *final(self), r),
    {
        let (mi, mj) = self.mouse_pos;
        let valid = self.get_valid_neighbours(mi, mj);
        proof {
            lemma_valid_neighbours_iff(*self, mi as int, mj as int);
        }
        if valid.len() == 0 {
            return TurnResult::GameOver;
        }
        let dist = self.get_distance_map();
        let mut best: usize = 0;
        let mut k: usize = 1;
        proof {
            lemma_valid_neighbours_iff(*self, mi as int, mj as int);
            assert(valid@.contains(valid@[0]));
        }
        while k < valid.len()
            invariant
                1 <= k <= valid@.len(),
                best < k,
                self.wf(),
                mi as int == self.mouse_row(),
                mj as int == self.mouse_col(),
                valid@ == self.spec_valid_neighbours(mi as int, mj as int),
                dist@.len() == self.spec_height(),
                forall|i: int|
                    0 <= i < dist@.len() ==> (#[trigger] dist@[i])@.len() == self.spec_width(),
                forall|i: int, j: int|
                    self.in_bounds(i, j) ==> #[trigger] (dist@[i]@[j]) as int == self.dist_code(
                        i,
                        j,
                    ),
                forall|m: int|
                    0 <= m < k ==> self.dist_code(
                        valid@[best as int].0 as int,
                        valid@[best as int].1 as int,
                    ) <= self.dist_code(
                        (#[trigger] valid@[m]).0 as int,
                        valid@[m].1 as int,
                    ),
                forall|m: int|
                    0 <= m < best ==> self.dist_code(
                        (#[trigger] valid@[m]).0 as int,
                        valid@[m].1 as int,
                    ) > self.dist_code(
                        valid@[best as int].0 as int,
                        valid@[best as int].1 as int,
                    ),
            decreases valid@.len() - k,
        {
            let ck = valid[k];
            let cb = valid[best];
            proof {
                lemma_valid_neighbours_iff(*self, mi as int, mj as int);
                assert(valid@.contains(valid@[k as int]));
                assert(valid@.contains(valid@[best as int]));
            }
            if dist[ck.0][ck.1] < dist[cb.0][cb.1] {
                best = k;
            }
            k += 1;
        }
        let c = valid[best];
        proof {
            assert(valid@.contains(valid@[best as int]));
        }
        let r = self.move_mouse(&c.0, &c.1);
        proof {
            assert(0 <= best < old(self).spec_valid_neighbours(mi as int, mj as int).len());
            assert(old(self).spec_valid_neighbours(mi as int, mj as int)[best as int] == c);
            assert(move_transition(*old(self), *self, c.0 as int, c.1 as int, r));
        }
        r
    }
}

impl Grid {
    /// The least escape distance among the listed cells; `i32::MAX` over an
    /// empty list.
    pub open spec fn min_dist_over(self, s: Seq<(usize, usize)>) -> int
        decreases s.len(),
    {
        if s.len() == 0 {
            i32::MAX as int
        } else {
            let rest = self.min_dist_over(s.drop_first());
            let d0 = self.dist_code(s[0].0 as int, s[0].1 as int);
            if d0 <= rest {
                d0
            } else {
                rest
            }
        }
    }

    /// The AI's best escape distance: the least distance code among the
    /// Empty neighbors of the Mouse.
    pub open spec fn spec_min_escape(self) -> int {
        self.min_dist_over(self.spec_valid_neighbours(self.mouse_row(), self.mouse_col()))
    }
}

/// The minimum over a list is at most each member's distance.
proof fn lemma_min_dist_le(g: Grid, s: Seq<(usize, usize)>, m: int)
    requires
        0 <= m < s.len(),
    ensures
        g.min_dist_over(s) <= g.dist_code(s[m].0 as int, s[m].1 as int),
    decreases s.len(),
{
    if m > 0 {
        assert(s.drop_first()[m - 1] == s[m]);
        lemma_min_dist_le(g, s.drop_first(), m - 1);
    }
}

/// A finite minimum is attained by some member.
proof fn lemma_min_dist_attained(g: Grid, s: Seq<(usize, usize)>)
    requires
        g.min_dist_over(s) < i32::MAX as int,
    ensures
        exists|m: int|
            0 <= m < s.len() && g.min_dist_over(s) == g.dist_code(
                (#[trigger] s[m]).0 as int,
                s[m].1 as int,
            ),
    decreases s.len(),
{
    let d0 = g.dist_code(s[0].0 as int, s[0].1 as int);
    if g.min_dist_over(s) == d0 && d0 <= g.min_dist_over(s.drop_first()) {
        assert(0 <= 0 < s.len() && g.min_dist_over(s) == g.dist_code(
            (s[0]).0 as int,
            s[0].1 as int,
        ));
    } else {
        lemma_min_dist_attained(g, s.drop_first());
        let m = choose|m: int|
            0 <= m < s.drop_first().len() && g.min_dist_over(s.drop_first()) == g.dist_code(
                (#[trigger] s.drop_first()[m]).0 as int,
                s.drop_first()[m].1 as int,
            );
        assert(s.drop_first()[m] == s[m + 1]);
        assert(g.min_dist_over(s) == g.dist_code((s[m + 1]).0 as int, s[m + 1].1 as int));
    }
}

/// A reachable cell's distance code is its exact escape distance.
proof fn lemma_dist_code_reachable(g: Grid, i: int, j: int)
    requires
        g.reachable(i, j),
    ensures
        g.dist_code(i, j) >= 0,
        g.dist_is(i, j, g.dist_code(i, j) as nat),
{
    let k = choose|k: nat| g.reach(k).contains((i, j));
    lemma_dist_exists(g, i, j, k);
    let m = choose|m: nat| m <= k && g.dist_is(i, j, m);
    lemma_dist_code_is(g, i, j, m);
}

/// Below a cell's exact distance, no reach set holds it.
proof fn lemma_below_dist(g: Grid, n: (int, int), k: nat)
    requires
        g.dist_is(n.0, n.1, k),
    ensures
        forall|m: nat| m < k ==> !(#[trigger] g.reach(m)).contains(n),
{
    assert forall|m: nat| m < k implies !(#[trigger] g.reach(m)).contains(n) by {
        if g.reach(m).contains(n) {
            lemma_reach_monotone(g, m, (k - 1) as nat);
        }
    }
}

/// Whatever one board reaches in `k` steps, a board with the same layout
/// whose Empty cells include all of the first's — except possibly one cell
/// `n` that no step up to `k` reaches — is reached there too.
proof fn lemma_reach_transfer(g: Grid, g2: Grid, n: (int, int), k: nat)
    requires
        g.spec_width() == g2.spec_width(),
        g.spec_height() == g2.spec_height(),
        forall|i: int, j: int|
            g.in_bounds(i, j) && !(i == n.0 && j == n.1) && #[trigger] g.cell(i, j)
                == Entity::Empty ==> g2.cell(i, j) == Entity::Empty,
        forall|m: nat| m <= k ==> !(#[trigger] g.reach(m)).contains(n),
    ensures
        forall|c: (int, int)| #[trigger] g.reach(k).contains(c) ==> g2.reach(k).contains(c),
    decreases k,
{
    lemma_reach_members_empty(g, k);
    if k == 0 {
        assert forall|c: (int, int)| #[trigger]
            g.reach(0nat).contains(c) implies g2.reach(0nat).contains(c) by {
            assert(c != n);
            assert(g2.border_empty(c.0, c.1));
        }
    } else {
        lemma_reach_transfer(g, g2, n, (k - 1) as nat);
        assert forall|c: (int, int)| #[trigger]
            g.reach(k).contains(c) implies g2.reach(k).contains(c) by {
            assert(c != n);
            if g.reach((k - 1) as nat).contains(c) {
                assert(g2.reach((k - 1) as nat).contains(c));
                lemma_reach_monotone(g2, (k - 1) as nat, k);
            } else {
                lemma_reach_step(g, (k - 1) as nat, c);
                let d = choose|d: (int, int)|
                    #[trigger] g.reach((k - 1) as nat).contains(d) && is_neighbor(
                        d.0,
                        d.1,
                        c.0,
                        c.1,
                    );
                assert(g2.reach((k - 1) as nat).contains(d));
                assert(g2.cell(c.0, c.1) == Entity::Empty);
                lemma_reach_extend(g2, (k - 1) as nat, d, c);
            }
        }
    }
}

/// The AI's escape distance falls with every move it makes: after a Good
/// AI Mouse step on a board whose best escape distance was finite, the new
/// board's best escape distance is strictly smaller. (A Good step is one
/// that did not land on the border — the game went on.)
#[verifier::rlimit(50)]
pub proof fn lemma_ai_escape_distance_decreases(g: Grid, g2: Grid)
    requires
        g.wf(),
        ai_move_transition(g, g2, TurnResult::Good),
    ensures
        g.spec_min_escape() < i32::MAX as int ==> g2.spec_min_escape() < g.spec_min_escape(),
{
    if g.spec_min_escape() >= i32::MAX as int {
        return ;
    }
    let mi = g.mouse_row();
    let mj = g.mouse_col();
    let s = g.spec_valid_neighbours(mi, mj);
    lemma_valid_neighbours_iff(g, mi, mj);
    let k = choose|k: int|
        #![auto]
        {
            &&& 0 <= k < s.len()
            &&& move_transition(g, g2, s[k].0 as int, s[k].1 as int, TurnResult::Good)
            &&& forall|m: int|
                0 <= m < s.len() ==> g.dist_code(s[k].0 as int, s[k].1 as int) <= g.dist_code(
                    (#[trigger] s[m]).0 as int,
                    s[m].1 as int,
                )
            &&& forall|m: int|
                0 <= m < k ==> g.dist_code((#[trigger] s[m]).0 as int, s[m].1 as int)
                    > g.dist_code(s[k].0 as int, s[k].1 as int)
        };
    let ci = s[k].0 as int;
    let cj = s[k].1 as int;
    let n = (ci, cj);

    // the chosen cell attains the finite minimum
    lemma_min_dist_attained(g, s);
    let ma = choose|m: int|
        0 <= m < s.len() && g.min_dist_over(s) == g.dist_code(
            (#[trigger] s[m]).0 as int,
            s[m].1 as int,
        );
    lemma_min_dist_le(g, s, k);
    let kk = g.dist_code(ci, cj);
    assert(kk == g.spec_min_escape());
    assert(kk < i32::MAX as int);
    assert(g.reachable(ci, cj));
    lemma_dist_code_reachable(g, ci, cj);
    let kn = kk as nat;
    assert(g.dist_is(ci, cj, kn));

    // a Good move never lands on the border, so the distance is positive
    assert(kn >= 1) by {
        if kn == 0 {
            assert(g.border_empty(ci, cj));
            assert(g.on_border(ci, cj));
        }
    }

    // a witness one step nearer the border, next to the chosen cell
    assert(g.reach(((kn - 1) + 1) as nat).contains(n));
    lemma_reach_step(g, (kn - 1) as nat, n);
    let d = choose|d: (int, int)|
        #[trigger] g.reach((kn - 1) as nat).contains(d) && is_neighbor(d.0, d.1, ci, cj);
    lemma_reach_members_empty(g, (kn - 1) as nat);

    // the move changed only the old and the new Mouse cell
    lemma_below_dist(g, n, kn);
    assert forall|i: int, j: int|
        g.in_bounds(i, j) && !(i == n.0 && j == n.1) && #[trigger] g.cell(i, j)
            == Entity::Empty implies g2.cell(i, j) == Entity::Empty by {
        if i == mi && j == mj {
            assert(g.cell(mi, mj) == Entity::Mouse);
        }
    }
    assert forall|m: nat| m <= (kn - 1) as nat implies !(#[trigger] g.reach(m)).contains(n) by {}
    lemma_reach_transfer(g, g2, n, (kn - 1) as nat);
    assert(g2.reach((kn - 1) as nat).contains(d));

    // d is an Empty neighbor of the new Mouse cell
    assert(d != n);
    assert(g2.cell(d.0, d.1) == Entity::Empty) by {
        if d == (mi, mj) {
            assert(g.cell(mi, mj) == Entity::Mouse);
        }
    }
    assert(g2.mouse_row() == ci && g2.mouse_col() == cj);
    assert(g2.is_empty_neighbor(ci, cj, d.0, d.1));
    lemma_valid_neighbours_iff(g2, ci, cj);
    let s2 = g2.spec_valid_neighbours(ci, cj);
    assert(s2.contains((d.0 as usize, d.1 as usize)));
    let md = choose|m: int| 0 <= m < s2.len() && s2[m] == (d.0 as usize, d.1 as usize);
    lemma_dist_code_le(g2, d.0, d.1, (kn - 1) as nat);
    lemma_min_dist_le(g2, s2, md);
    assert(g2.spec_min_escape() <= g2.dist_code(d.0, d.1));
    assert(g2.spec_min_escape() <= kn - 1);
}

/// How a call of `move_mouse_random` relates the old board, the new board
/// and the reported result: the Mouse stepped to one of its Empty neighbors
/// and the move ended the game exactly when that cell lies on the border, or
/// it had no Empty neighbor and nothing changed.
pub open spec fn ai_move_transition(g: Grid, g2: Grid, r: TurnResult) -> bool {
    let mi = g.mouse_row();
    let mj = g.mouse_col();
    let s = g.spec_valid_neighbours(mi, mj);
    if g.has_empty_neighbor(mi, mj) {
        exists|k: int|
            #![auto]
            {
                &&& 0 <= k < s.len()
                &&& move_transition(g, g2, s[k].0 as int, s[k].1 as int, r)
                &&& forall|m: int|
                    0 <= m < s.len() ==> g.dist_code(s[k].0 as int, s[k].1 as int)
                        <= g.dist_code((#[trigger] s[m]).0 as int, s[m].1 as int)
                &&& forall|m: int|
                    0 <= m < k ==> g.dist_code((#[trigger] s[m]).0 as int, s[m].1 as int)
                        > g.dist_code(s[k].0 as int, s[k].1 as int)
            }
    } else {
        r == TurnResult::GameOver && g2.same_as(g)
    }
}

impl Grid {
    /// The `(row, col, code)` triples of the non-Empty cells of row `i` in
    /// columns `[0, j)`, in column order.
    pub open spec fn row_triples_to(self, i: int, j: int) -> Seq<(u8, u8, u8)>
        decreases j,
    {
        if j <= 0 {
            Seq::empty()
        } else {
            let rest = self.row_triples_to(i, j - 1);
            if self.cell(i, j - 1) != Entity::Empty {
                rest.push((i as u8, (j - 1) as u8, self.cell(i, j - 1).spec_code()))
            } else {
                rest
            }
        }
    }

    /// The triples of the non-Empty cells of rows `[0, i)`, row-major.
    pub open spec fn triples_to(self, i: int) -> Seq<(u8, u8, u8)>
        decreases i,
    {
        if i <= 0 {
            Seq::empty()
        } else {
            self.triples_to(i - 1) + self.row_triples_to(i - 1, self.spec_width())
        }
    }

    /// The triples of all non-Empty cells of the board, row-major.
    pub open spec fn spec_triples(self) -> Seq<(u8, u8, u8)> {
        self.triples_to(self.spec_height())
    }

    /// The wire form of the board: width, height and non-empty-cell count as
    /// little-endian u32, then one `(row, col, code)` byte triple per
    /// non-Empty cell.
    pub open spec fn spec_bytes(self) -> Seq<u8> {
        vstd::bytes::spec_u32_to_le_bytes(self.spec_width() as u32)
            + vstd::bytes::spec_u32_to_le_bytes(self.spec_height() as u32)
            + vstd::bytes::spec_u32_to_le_bytes(self.spec_triples().len() as u32) + triple_bytes(
            self.spec_triples(),
        )
    }
}

/// A triple sequence flattened to bytes, three per triple.
pub open spec fn triple_bytes(ts: Seq<(u8, u8, u8)>) -> Seq<u8>
    decreases ts.len(),
{
    if ts.len() == 0 {
        Seq::empty()
    } else {
        triple_bytes(ts.drop_last()) + seq![ts.last().0, ts.last().1, ts.last().2]
    }
}

/// Each triple occupies the three bytes at its own offset.
pub proof fn lemma_triple_bytes_index(ts: Seq<(u8, u8, u8)>, k: int)
    requires
        0 <= k < ts.len(),
    ensures
        triple_bytes(ts).len() == 3 * ts.len(),
        triple_bytes(ts)[3 * k] == ts[k].0,
        triple_bytes(ts)[3 * k + 1] == ts[k].1,
        triple_bytes(ts)[3 * k + 2] == ts[k].2,
    decreases ts.len(),
{
    lemma_triple_bytes_len(ts.drop_last());
    if k < ts.len() - 1 {
        lemma_triple_bytes_index(ts.drop_last(), k);
    }
}

/// Flattened triples take three bytes each.
pub proof fn lemma_triple_bytes_len(ts: Seq<(u8, u8, u8)>)
    ensures
        triple_bytes(ts).len() == 3 * ts.len(),
    decreases ts.len(),
{
    if ts.len() > 0 {
        lemma_triple_bytes_len(ts.drop_last());
    }
}

/// How a call of `place_random` relates the old board, the new board and
/// the reported result: some Empty neighbor of the Mouse was filled, or
/// there was none and nothing changed.
pub open spec fn place_random_transition(g: Grid, g2: Grid, e: Entity, r: TurnResult) -> bool {
    let mi = g.mouse_row();
    let mj = g.mouse_col();
    if g.has_empty_neighbor(mi, mj) {
        &&& r == TurnResult::Good
        &&& exists|k: int|
            #![auto]
            0 <= k < g.spec_valid_neighbours(mi, mj).len() && place_transition(
                g,
                g2,
                g.spec_valid_neighbours(mi, mj)[k].0 as int,
                g.spec_valid_neighbours(mi, mj)[k].1 as int,
                e,
                TurnResult::Good,
            )
    } else {
        r == TurnResult::GameOver && g2.same_as(g)
    }
}

/// Two boards with equal cells in row `i` from column `j` on have the same
/// row count there.
proof fn lemma_row_count_eq(g: Grid, g2: Grid, e: Entity, i: int, j: int)
    requires
        g.spec_width() == g2.spec_width(),
        forall|x: int| j <= x < g.spec_width() ==> g.cell(i, x) == g2.cell(i, x),
    ensures
        g.row_count(e, i, j) == g2.row_count(e, i, j),
    decreases g.spec_width() - j,
{
    if 0 <= j < g.spec_width() {
        lemma_row_count_eq(g, g2, e, i, j + 1);
    } else if j < 0 {
        lemma_row_count_eq(g, g2, e, i, 0);
    }
}

/// Two boards with equal cells in all rows from `i` on have the same count
/// there.
proof fn lemma_count_from_eq(g: Grid, g2: Grid, e: Entity, i: int)
    requires
        g.spec_width() == g2.spec_width(),
        g.spec_height() == g2.spec_height(),
        forall|a: int, b: int|
            a >= i && g.in_bounds(a, b) ==> #[trigger] g.cell(a, b) == g2.cell(a, b),
    ensures
        g.count_from(e, i) == g2.count_from(e, i),
    decreases g.spec_height() - i,
{
    if 0 <= i < g.spec_height() {
        lemma_row_count_eq(g, g2, e, i, 0);
        lemma_count_from_eq(g, g2, e, i + 1);
    } else if i < 0 {
        lemma_count_from_eq(g, g2, e, 0);
    }
}

/// Changing the one cell `(i, x)` changes a row count by the difference the
/// two cell values make.
proof fn lemma_row_count_update(g: Grid, g2: Grid, e: Entity, i: int, x: int, j: int)
    requires
        g.spec_width() == g2.spec_width(),
        0 <= j <= x < g.spec_width(),
        forall|c: int| j <= c < g.spec_width() && c != x ==> g.cell(i, c) == g2.cell(i, c),
    ensures
        g2.row_count(e, i, j) + (if g.cell(i, x) == e {
            1nat
        } else {
            0nat
        }) == g.row_count(e, i, j) + (if g2.cell(i, x) == e {
            1nat
        } else {
            0nat
        }),
    decreases x - j,
{
    if j == x {
        lemma_row_count_eq(g, g2, e, i, j + 1);
    } else {
        lemma_row_count_update(g, g2, e, i, x, j + 1);
    }
}

/// Changing the one cell `(y, x)` changes the board count by the difference
/// the two cell values make.
proof fn lemma_count_update_from(g: Grid, g2: Grid, e: Entity, y: int, x: int, i: int)
    requires
        g.spec_width() == g2.spec_width(),
        g.spec_height() == g2.spec_height(),
        g.in_bounds(y, x),
        0 <= i <= y,
        forall|a: int, b: int|
            g.in_bounds(a, b) && !(a == y && b == x) ==> #[trigger] g.cell(a, b) == g2.cell(a, b),
    ensures
        g2.count_from(e, i) + (if g.cell(y, x) == e {
            1nat
        } else {
            0nat
        }) == g.count_from(e, i) + (if g2.cell(y, x) == e {
            1nat
        } else {
            0nat
        }),
    decreases y - i,
{
    if i == y {
        lemma_row_count_update(g, g2, e, y, x, 0);
        lemma_count_from_eq(g, g2, e, y + 1);
    } else {
        lemma_row_count_eq(g, g2, e, i, 0);
        lemma_count_update_from(g, g2, e, y, x, i + 1);
    }
}

/// The count-level corollary: one changed cell shifts the count of each
/// entity by at most one, by the values it held and holds.
pub proof fn lemma_count_cell_update(g: Grid, g2: Grid, e: Entity, y: int, x: int)
    requires
        g.spec_width() == g2.spec_width(),
        g.spec_height() == g2.spec_height(),
        g.in_bounds(y, x),
        forall|a: int, b: int|
            g.in_bounds(a, b) && !(a == y && b == x) ==> #[trigger] g.cell(a, b) == g2.cell(a, b),
    ensures
        g2.count(e) + (if g.cell(y, x) == e {
            1nat
        } else {
            0nat
        }) == g.count(e) + (if g2.cell(y, x) == e {
            1nat
        } else {
            0nat
        }),
{
    lemma_count_update_from(g, g2, e, y, x, 0);
}

/// A row without `e` from column `j` on counts zero.
proof fn lemma_row_count_absent(g: Grid, e: Entity, i: int, j: int)
    requires
        forall|x: int| j <= x < g.spec_width() ==> #[trigger] g.cell(i, x) != e,
    ensures
        g.row_count(e, i, j) == 0,
    decreases g.spec_width() - j,
{
    if 0 <= j < g.spec_width() {
        lemma_row_count_absent(g, e, i, j + 1);
    } else if j < 0 {
        lemma_row_count_absent(g, e, i, 0);
    }
}

/// A board without `e` in rows `i` and below counts zero there.
pub proof fn lemma_count_absent(g: Grid, e: Entity, i: int)
    requires
        forall|a: int, b: int| a >= i && g.in_bounds(a, b) ==> #[trigger] g.cell(a, b) != e,
    ensures
        g.count_from(e, i) == 0,
    decreases g.spec_height() - i,
{
    if 0 <= i < g.spec_height() {
        lemma_row_count_absent(g, e, i, 0);
        lemma_count_absent(g, e, i + 1);
    } else if i < 0 {
        lemma_count_absent(g, e, 0);
    }
}

/// A row holding `e` at column `x` counts at least one from any start at or
/// before `x`.
proof fn lemma_row_count_one(g: Grid, e: Entity, i: int, x: int, j: int)
    requires
        0 <= j <= x < g.spec_width(),
        g.cell(i, x) == e,
    ensures
        g.row_count(e, i, j) >= 1,
    decreases x - j,
{
    if j < x {
        lemma_row_count_one(g, e, i, x, j + 1);
    }
}

/// A row holding `e` at two columns counts at least two.
proof fn lemma_row_count_two(g: Grid, e: Entity, i: int, x1: int, x2: int, j: int)
    requires
        0 <= j <= x1 < x2 < g.spec_width(),
        g.cell(i, x1) == e,
        g.cell(i, x2) == e,
    ensures
        g.row_count(e, i, j) >= 2,
    decreases x1 - j,
{
    if j < x1 {
        lemma_row_count_two(g, e, i, x1, x2, j + 1);
    } else {
        lemma_row_count_one(g, e, i, x2, j + 1);
    }
}

/// A row holding `e` at three columns counts at least three.
proof fn lemma_row_count_three(g: Grid, e: Entity, i: int, x1: int, x2: int, x3: int, j: int)
    requires
        0 <= j <= x1 < x2 < x3 < g.spec_width(),
        g.cell(i, x1) == e,
        g.cell(i, x2) == e,
        g.cell(i, x3) == e,
    ensures
        g.row_count(e, i, j) >= 3,
    decreases x1 - j,
{
    if j < x1 {
        lemma_row_count_three(g, e, i, x1, x2, x3, j + 1);
    } else {
        lemma_row_count_two(g, e, i, x2, x3, j + 1);
    }
}

/// Dropping leading rows only lowers the count.
proof fn lemma_count_from_mono(g: Grid, e: Entity, i: int, k: int)
    requires
        0 <= i <= k,
    ensures
        g.count_from(e, i) >= g.count_from(e, k),
    decreases k - i,
{
    if i < k {
        lemma_count_from_mono(g, e, i + 1, k);
    }
}

/// Five Walls cannot close all six cells around the center Mouse of the
/// default 11 x 11 board: it always has an Empty neighbor.
pub proof fn lemma_five_walls_leave_an_escape(g: Grid)
    requires
        g.wf(),
        g.spec_width() == 11,
        g.spec_height() == 11,
        g.mouse_row() == 5,
        g.mouse_col() == 5,
        g.count(Entity::Wall) == 5,
    ensures
        g.has_empty_neighbor(5, 5),
{
    lemma_valid_neighbours_iff(g, 5, 5);
    if !g.has_empty_neighbor(5, 5) {
        // every one of the six cells around the Mouse is then a Wall: it is
        // in bounds, not Empty, and the one Mouse sits at the center
        assert forall|y: int, x: int| is_neighbor(5, 5, y, x) implies g.cell(y, x)
            == Entity::Wall by {
            assert(g.in_bounds(y, x));
            if g.cell(y, x) == Entity::Empty {
                assert(g.spec_valid_neighbours(5, 5).contains((y as usize, x as usize)));
            }
        }
        assert(is_neighbor(5, 5, 4, 5) && is_neighbor(5, 5, 6, 5) && is_neighbor(5, 5, 5, 4)
            && is_neighbor(5, 5, 5, 6) && is_neighbor(5, 5, 6, 4) && is_neighbor(5, 5, 6, 6));
        lemma_row_count_one(g, Entity::Wall, 4, 5, 0);
        lemma_row_count_two(g, Entity::Wall, 5, 4, 6, 0);
        lemma_row_count_three(g, Entity::Wall, 6, 4, 5, 6, 0);
        lemma_count_from_mono(g, Entity::Wall, 0, 4);
        assert(g.count_from(Entity::Wall, 6) >= 3);
        assert(g.count_from(Entity::Wall, 5) >= 5);
        assert(g.count_from(Entity::Wall, 4) >= 6);
        assert(false);
    }
}

/// How a call of `place` relates the old board, the new board and the
/// reported result.
pub open spec fn place_transition(g: Grid, g2: Grid, y: int, x: int, e: Entity, r: TurnResult) -> bool {
    if g.cell(y, x) == Entity::Empty {
        &&& r == TurnResult::Good
        &&& g2.spec_width() == g.spec_width()
        &&& g2.spec_height() == g.spec_height()
        &&& g2.mouse_row() == g.mouse_row()
        &&& g2.mouse_col() == g.mouse_col()
        &&& g2.cell(y, x) == e
        &&& forall|i: int, j: int|
            g.in_bounds(i, j) && !(i == y && j == x) ==> #[trigger] g2.cell(i, j) == g.cell(i, j)
    } else {
        r == TurnResult::Bad && g2.same_as(g)
    }
}

/// How a call of `move_mouse` relates the old board, the new board and the
/// reported result.
pub open spec fn move_transition(g: Grid, g2: Grid, y: int, x: int, r: TurnResult) -> bool {
    let mi = g.mouse_row();
    let mj = g.mouse_col();
    if !g.has_empty_neighbor(mi, mj) {
        r == TurnResult::GameOver && g2.same_as(g)
    } else if g.is_empty_neighbor(mi, mj, y, x) {
        &&& g2.spec_width() == g.spec_width()
        &&& g2.spec_height() == g.spec_height()
        &&& g2.mouse_row() == y
        &&& g2.mouse_col() == x
        &&& g2.cell(mi, mj) == Entity::Empty
        &&& g2.cell(y, x) == Entity::Mouse
        &&& forall|i: int, j: int|
            g.in_bounds(i, j) && !(i == mi && j == mj) && !(i == y && j == x)
                ==> #[trigger] g2.cell(i, j) == g.cell(i, j)
        &&& r == if g.on_border(y, x) {
            TurnResult::GameOver
        } else {
            TurnResult::Good
        }
    } else {
        r == TurnResult::Bad && g2.same_as(g)
    }
}

/// Every triple of a row prefix records a non-Empty cell of that row, left
/// of the prefix end, with its entity code.
proof fn lemma_row_triples_sound(g: Grid, i: int, j: int)
    requires
        0 <= i < g.spec_height(),
        0 <= j <= g.spec_width(),
        g.spec_height() <= 255,
        g.spec_width() <= 255,
    ensures
        forall|k: int|
            0 <= k < g.row_triples_to(i, j).len() ==> {
                let t = #[trigger] g.row_triples_to(i, j)[k];
                &&& t.0 == i
                &&& t.1 < j
                &&& g.cell(i, t.1 as int) != Entity::Empty
                &&& t.2 == g.cell(i, t.1 as int).spec_code()
            },
    decreases j,
{
    if j > 0 {
        lemma_row_triples_sound(g, i, j - 1);
    }
}

/// Every triple of a row-block prefix records a non-Empty cell of an earlier
/// row, with its entity code.
proof fn lemma_triples_to_sound(g: Grid, i: int)
    requires
        0 <= i <= g.spec_height(),
        g.spec_height() <= 255,
        g.spec_width() <= 255,
    ensures
        forall|k: int|
            0 <= k < g.triples_to(i).len() ==> {
                let t = #[trigger] g.triples_to(i)[k];
                &&& t.0 < i
                &&& t.1 < g.spec_width()
                &&& g.cell(t.0 as int, t.1 as int) != Entity::Empty
                &&& t.2 == g.cell(t.0 as int, t.1 as int).spec_code()
            },
    decreases i,
{
    if i > 0 {
        lemma_triples_to_sound(g, i - 1);
        lemma_row_triples_sound(g, i - 1, g.spec_width());
    }
}

/// Every non-Empty cell left of a row-prefix end is recorded in the row's
/// triples.
proof fn lemma_row_triples_complete(g: Grid, i: int, j: int, b: int)
    requires
        0 <= i < g.spec_height(),
        0 <= b < j <= g.spec_width(),
        g.spec_height() <= 255,
        g.spec_width() <= 255,
        g.cell(i, b) != Entity::Empty,
    ensures
        g.row_triples_to(i, j).contains(
            (i as u8, b as u8, g.cell(i, b).spec_code()),
        ),
    decreases j,
{
    broadcast use group_seq_properties;

    let t = (i as u8, b as u8, g.cell(i, b).spec_code());
    if b == j - 1 {
        assert(g.row_triples_to(i, j).last() == t);
        assert(g.row_triples_to(i, j).contains(t));
    } else {
        lemma_row_triples_complete(g, i, j - 1, b);
        let prev = g.row_triples_to(i, j - 1);
        let m = choose|m: int| 0 <= m < prev.len() && prev[m] == t;
        assert(g.row_triples_to(i, j)[m] == t);
    }
}

/// Every non-Empty cell of the rows below a row-block prefix end is recorded
/// in the block's triples.
proof fn lemma_triples_to_complete(g: Grid, i: int, a: int, b: int)
    requires
        0 <= a < i <= g.spec_height(),
        0 <= b < g.spec_width(),
        g.spec_height() <= 255,
        g.spec_width() <= 255,
        g.cell(a, b) != Entity::Empty,
    ensures
        g.triples_to(i).contains((a as u8, b as u8, g.cell(a, b).spec_code())),
    decreases i,
{
    broadcast use group_seq_properties;

    let t = (a as u8, b as u8, g.cell(a, b).spec_code());
    if a == i - 1 {
        lemma_row_triples_complete(g, a, g.spec_width(), b);
        let row = g.row_triples_to(a, g.spec_width());
        let m = choose|m: int| 0 <= m < row.len() && row[m] == t;
        assert(g.triples_to(i)[g.triples_to(i - 1).len() + m] == t);
    } else {
        lemma_triples_to_complete(g, i - 1, a, b);
        let prev = g.triples_to(i - 1);
        let m = choose|m: int| 0 <= m < prev.len() && prev[m] == t;
        assert(g.triples_to(i)[m] == t);
    }
}

/// A row prefix yields at most one triple per column.
proof fn lemma_row_triples_bound(g: Grid, i: int, j: int)
    requires
        0 <= j,
    ensures
        g.row_triples_to(i, j).len() <= j,
    decreases j,
{
    if j > 0 {
        lemma_row_triples_bound(g, i, j - 1);
    }
}

/// A row-block prefix yields at most 255 triples per row.
proof fn lemma_triples_to_bound(g: Grid, i: int)
    requires
        0 <= i,
        g.spec_width() <= 255,
    ensures
        g.triples_to(i).len() <= i * 255,
    decreases i,
{
    if i > 0 {
        lemma_triples_to_bound(g, i - 1);
        lemma_row_triples_bound(g, i - 1, g.spec_width());
    }
}

impl Grid {
    /// The wire form of the board, §`spec_bytes`: dimensions, non-empty-cell
    /// count, then one byte triple per non-Empty cell, row-major.
    pub fn as_bytes(&self) -> (r: Vec<u8>)
        requires
            self.wf(),
        ensures
            r@ == self.spec_bytes(),
    {
        let mut trips: Vec<u8> = Vec::new();
        let mut y: usize = 0;
        while y < self.height
            invariant
                self.wf(),
                y <= self.spec_height(),
                trips@ == triple_bytes(self.triples_to(y as int)),
                trips@.len() == 3 * self.triples_to(y as int).len(),
            decreases self.height - y,
        {
            let mut x: usize = 0;
            while x < self.width
                invariant
                    self.wf(),
                    y < self.spec_height(),
                    x <= self.spec_width(),
                    trips@ == triple_bytes(
                        self.triples_to(y as int) + self.row_triples_to(y as int, x as int),
                    ),
                    trips@.len() == 3 * (self.triples_to(y as int) + self.row_triples_to(
                        y as int,
                        x as int,
                    )).len(),
                decreases self.width - x,
            {
                let ghost done = self.triples_to(y as int) + self.row_triples_to(y as int, x as int);
                let e = self.tiles[y][x];
                if e != Entity::Empty {
                    trips.push(y as u8);
                    trips.push(x as u8);
                    trips.push(e.code());
                    proof {
                        let t = (y as u8, x as u8, e.spec_code());
                        assert(self.row_triples_to(y as int, x as int + 1)
                            == self.row_triples_to(y as int, x as int).push(t));
                        let done2 = self.triples_to(y as int) + self.row_triples_to(
                            y as int,
                            x as int + 1,
                        );
                        assert(done2 =~= done.push(t));
                        assert(done2.drop_last() =~= done);
                        assert(trips@ =~= triple_bytes(done2));
                    }
                } else {
                    proof {
                        assert(self.row_triples_to(y as int, x as int + 1)
                            == self.row_triples_to(y as int, x as int));
                    }
                }
                x += 1;
            }
            proof {
                assert(self.triples_to(y as int + 1) == self.triples_to(y as int)
                    + self.row_triples_to(y as int, self.spec_width()));
                assert(self.triples_to(y as int + 1) + self.row_triples_to(y as int + 1, 0)
                    =~= self.triples_to(y as int + 1));
            }
            y += 1;
        }
        proof {
            lemma_triples_to_bound(*self, self.spec_height());
        }
        let count: usize = trips.len() / 3;
        let mut r = vstd::bytes::u32_to_le_bytes(self.width as u32);
        let mut hb = vstd::bytes::u32_to_le_bytes(self.height as u32);
        let mut nb = vstd::bytes::u32_to_le_bytes(count as u32);
        r.append(&mut hb);
        r.append(&mut nb);
        r.append(&mut trips);
        proof {
            assert(r@ =~= self.spec_bytes());
        }
        r
    }
}

/// One parsed board frame: the dimension fields and the cell triples.
pub struct TileFrame {
    pub width: u32,
    pub height: u32,
    pub triples: Vec<(u8, u8, u8)>,
}

/// The `n` triples encoded three bytes apiece at the start of `s`.
pub open spec fn bytes_to_triples(s: Seq<u8>, n: int) -> Seq<(u8, u8, u8)> {
    Seq::new(n as nat, |k: int| (s[3 * k], s[3 * k + 1], s[3 * k + 2]))
}

/// What decoding a board frame yields: the three little-endian u32 header
/// fields and the triple list, or nothing when the bytes cannot hold them.
pub open spec fn spec_decode_tiles(b: Seq<u8>) -> Option<(u32, u32, Seq<(u8, u8, u8)>)> {
    if b.len() < 12 {
        None
    } else {
        let w = vstd::bytes::spec_u32_from_le_bytes(b.subrange(0, 4));
        let h = vstd::bytes::spec_u32_from_le_bytes(b.subrange(4, 8));
        let n = vstd::bytes::spec_u32_from_le_bytes(b.subrange(8, 12));
        if b.len() < 12 + 3 * (n as int) {
            None
        } else {
            Some((w, h, bytes_to_triples(b.subrange(12, 12 + 3 * (n as int)), n as int)))
        }
    }
}

/// Read the four little-endian bytes at `off` as a u32.
fn read_u32_at(bytes: &Vec<u8>, off: usize) -> (r: u32)
    requires
        off + 4 <= bytes.len(),
    ensures
        r == vstd::bytes::spec_u32_from_le_bytes(bytes@.subrange(off as int, off as int + 4)),
{
    let mut tmp: Vec<u8> = Vec::new();
    tmp.push(bytes[off]);
    tmp.push(bytes[off + 1]);
    tmp.push(bytes[off + 2]);
    tmp.push(bytes[off + 3]);
    proof {
        assert(tmp@ =~= bytes@.subrange(off as int, off as int + 4));
    }
    vstd::bytes::u32_from_le_bytes(tmp.as_slice())
}

/// Decode a board frame from bytes, as a client redrawing the board does.
pub fn decode_tiles(bytes: &Vec<u8>) -> (r: Option<TileFrame>)
    ensures
        r is Some <==> spec_decode_tiles(bytes@) is Some,
        r is Some ==> spec_decode_tiles(bytes@) == Some(
            ((r->Some_0.width, r->Some_0.height, r->Some_0.triples@)),
        ),
{
    let blen = bytes.len();
    if blen < 12 {
        return None;
    }
    let w = read_u32_at(bytes, 0);
    let h = read_u32_at(bytes, 4);
    let n = read_u32_at(bytes, 8);
    if ((blen as u64) - 12) / 3 < n as u64 {
        proof {
            assert(bytes@.len() < 12 + 3 * (n as int));
        }
        return None;
    }
    let n_us = n as usize;
    proof {
        assert(12 + 3 * (n_us as int) <= blen);
    }
    let mut triples: Vec<(u8, u8, u8)> = Vec::new();
    let mut k: usize = 0;
    while k < n_us
        invariant
            k <= n_us,
            12 + 3 * (n_us as int) <= blen,
            blen == bytes@.len(),
            triples@.len() == k,
            forall|m: int|
                0 <= m < k ==> #[trigger] triples@[m] == (
                    bytes@[12 + 3 * m],
                    bytes@[12 + 3 * m + 1],
                    bytes@[12 + 3 * m + 2],
                ),
        decreases n_us - k,
    {
        let off = 12 + 3 * k;
        triples.push((bytes[off], bytes[off + 1], bytes[off + 2]));
        k += 1;
    }
    proof {
        assert(triples@ =~= bytes_to_triples(
            bytes@.subrange(12, 12 + 3 * (n as int)),
            n as int,
        ));
    }
    Some(TileFrame { width: w, height: h, triples })
}

/// Decoding the wire form of a board gives back its dimensions and exactly
/// its non-empty cell triples.
pub proof fn lemma_tiles_round_trip(g: Grid)
    requires
        g.wf(),
    ensures
        spec_decode_tiles(g.spec_bytes()) == Some(
            ((g.spec_width() as u32, g.spec_height() as u32, g.spec_triples())),
        ),
{
    vstd::bytes::lemma_auto_spec_u32_to_from_le_bytes();
    let ts = g.spec_triples();
    lemma_triple_bytes_len(ts);
    lemma_triples_to_bound(g, g.spec_height());
    let b = g.spec_bytes();
    assert(b.subrange(0, 4) =~= vstd::bytes::spec_u32_to_le_bytes(g.spec_width() as u32));
    assert(b.subrange(4, 8) =~= vstd::bytes::spec_u32_to_le_bytes(g.spec_height() as u32));
    assert(b.subrange(8, 12) =~= vstd::bytes::spec_u32_to_le_bytes(ts.len() as u32));
    assert(b.len() == 12 + 3 * ts.len());
    assert(b.subrange(12, 12 + 3 * (ts.len() as int)) =~= triple_bytes(ts));
    assert forall|k: int| 0 <= k < ts.len() implies bytes_to_triples(
        triple_bytes(ts),
        ts.len() as int,
    )[k] == ts[k] by {
        lemma_triple_bytes_index(ts, k);
    }
    assert(bytes_to_triples(triple_bytes(ts), ts.len() as int) =~= ts);
}

/// Serializing a board, then reconstructing from the byte stream, yields the
/// same non-empty cell set, with the entity codes carried through.
pub proof fn lemma_serialize_round_trip(g: Grid)
    requires
        g.wf(),
    ensures
        spec_decode_tiles(g.spec_bytes()) is Some,
        ({
            let d = spec_decode_tiles(g.spec_bytes())->Some_0;
            &&& d.0 == g.spec_width() as u32
            &&& d.1 == g.spec_height() as u32
            &&& forall|k: int|
                0 <= k < d.2.len() ==> {
                    let t = #[trigger] d.2[k];
                    &&& g.in_bounds(t.0 as int, t.1 as int)
                    &&& g.cell(t.0 as int, t.1 as int) != Entity::Empty
                    &&& Entity::spec_from_code(t.2) == g.cell(t.0 as int, t.1 as int)
                }
            &&& forall|i: int, j: int|
                g.in_bounds(i, j) && #[trigger] g.cell(i, j) != Entity::Empty ==> d.2.contains(
                    (i as u8, j as u8, g.cell(i, j).spec_code()),
                )
        }),
{
    lemma_tiles_round_trip(g);
    lemma_triples_to_sound(g, g.spec_height());
    assert forall|i: int, j: int|
        g.in_bounds(i, j) && #[trigger] g.cell(i, j) != Entity::Empty implies g.spec_triples()
        .contains((i as u8, j as u8, g.cell(i, j).spec_code())) by {
        lemma_triples_to_complete(g, g.spec_height(), i, j);
    }
    assert forall|k: int| 0 <= k < g.spec_triples().len() implies {
        let t = #[trigger] g.spec_triples()[k];
        &&& g.in_bounds(t.0 as int, t.1 as int)
        &&& g.cell(t.0 as int, t.1 as int) != Entity::Empty
        &&& Entity::spec_from_code(t.2) == g.cell(t.0 as int, t.1 as int)
    } by {
        let t = g.spec_triples()[k];
        lemma_entity_code_round_trip(g.cell(t.0 as int, t.1 as int));
    }
}

/// Membership in the valid-neighbor sequence coincides with being an
/// in-bounds Empty neighbor, and every entry of the sequence is one.
pub proof fn lemma_valid_neighbours_iff(g: Grid, pi: int, pj: int)
    requires
        0 <= pi < g.spec_height(),
        0 <= pj < g.spec_width(),
    ensures
        forall|c: (usize, usize)|
            #[trigger] g.spec_valid_neighbours(pi, pj).contains(c) <==> g.is_empty_neighbor(
                pi,
                pj,
                c.0 as int,
                c.1 as int,
            ),
        forall|k: int|
            0 <= k < g.spec_valid_neighbours(pi, pj).len() ==> g.is_empty_neighbor(
                pi,
                pj,
                #[trigger] g.spec_valid_neighbours(pi, pj)[k].0 as int,
                g.spec_valid_neighbours(pi, pj)[k].1 as int,
            ),
{
    broadcast use group_seq_properties;

    let s = g.spec_valid_neighbours(pi, pj);
    let o = spec_offsets(pj);
    assert forall|c: (usize, usize)| #[trigger]
        s.contains(c) implies g.is_empty_neighbor(pi, pj, c.0 as int, c.1 as int) by {
        assert(exists|k: int| 0 <= k < 6 && g.cand(pi + o[k].0, pj + o[k].1).contains(c));
        let k = choose|k: int| 0 <= k < 6 && g.cand(pi + o[k].0, pj + o[k].1).contains(c);
        assert(g.cand(pi + o[k].0, pj + o[k].1).len() == 1);
        assert(c == (((pi + o[k].0) as usize), ((pj + o[k].1) as usize)));
    }
    assert forall|c: (usize, usize)| g.is_empty_neighbor(
        pi,
        pj,
        c.0 as int,
        c.1 as int,
    ) implies #[trigger] s.contains(c) by {
        assert(exists|k: int|
            0 <= k < 6 && c.0 as int == pi + o[k].0 && c.1 as int == pj + o[k].1);
        let k = choose|k: int|
            0 <= k < 6 && c.0 as int == pi + o[k].0 && c.1 as int == pj + o[k].1;
        assert(g.cand(pi + o[k].0, pj + o[k].1) == seq![c]);
        assert(g.cand(pi + o[k].0, pj + o[k].1).contains(c));
    }
    assert forall|k: int| 0 <= k < s.len() implies g.is_empty_neighbor(
        pi,
        pj,
        s[k].0 as int,
        s[k].1 as int,
    ) by {
        assert(s.contains(s[k]));
    }
}

} // verus!
