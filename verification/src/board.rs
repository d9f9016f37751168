use vstd::prelude::*;
use vstd::pervasive::VecAdditionalExecFns;
use crate::player::Player;

verus! {

/// One square of the grid: empty, or holding one player's stone.
#[derive(Clone, Copy, Debug, PartialEq, Eq, Structural)]
pub enum Cell {
    Empty,
    Occupied(Player),
}

/// True when (r, c) addresses a square of the 8x8 grid.
pub open spec fn in_bounds(r: int, c: int) -> bool {
    0 <= r < 8 && 0 <= c < 8
}

/// The position of square (r, c) in the row-major view of the grid.
pub open spec fn idx_of(r: int, c: int) -> int {
    r * 8 + c
}

/// True for the eight compass steps: both components in {-1, 0, 1},
/// excluding the zero vector.
pub open spec fn is_direction(dr: int, dc: int) -> bool {
    -1 <= dr <= 1 && -1 <= dc <= 1 && !(dr == 0 && dc == 0)
}

/// Termination measure for a walk from (nr, nc) in direction (dr, dc):
/// an upper bound on the steps left before the walk leaves the grid.
pub open spec fn walk_measure(nr: int, nc: int, dr: int, dc: int) -> int {
    (if dr > 0 {
        8 - nr
    } else if dr < 0 {
        nr + 1
    } else {
        0
    }) + (if dc > 0 {
        8 - nc
    } else if dc < 0 {
        nc + 1
    } else {
        0
    })
}

/// The directional capture test, walking outward from (nr, nc) in
/// direction (dr, dc). `seen_opponent` records whether at least one
/// opponent stone has been traversed so far. The walk succeeds exactly
/// when it reaches a stone of `p` after traversing one or more opponent
/// stones; an empty square or the edge of the grid ends it in failure.
pub open spec fn capture_walk(
    g: Seq<Cell>,
    nr: int,
    nc: int,
    dr: int,
    dc: int,
    p: Player,
    seen_opponent: bool,
) -> bool
    decreases walk_measure(nr, nc, dr, dc),
        when is_direction(dr, dc)
{
    if !in_bounds(nr, nc) {
        false
    } else {
        match g[idx_of(nr, nc)] {
            Cell::Empty => false,
            Cell::Occupied(q) => if q == p {
                seen_opponent
            } else {
                capture_walk(g, nr + dr, nc + dc, dr, dc, p, true)
            },
        }
    }
}

/// True when a stone of `p` placed at (r, c) would capture at least one
/// opponent stone in direction (dr, dc).
pub open spec fn captures_in_dir(g: Seq<Cell>, r: int, c: int, dr: int, dc: int, p: Player) -> bool {
    capture_walk(g, r + dr, c + dc, dr, dc, p, false)
}

/// A placement is legal exactly when it is on an empty in-bounds square
/// and captures in at least one of the eight directions.
pub open spec fn spec_valid_move(g: Seq<Cell>, r: int, c: int, p: Player) -> bool {
    &&& in_bounds(r, c)
    &&& g[idx_of(r, c)] == Cell::Empty
    &&& exists|dr: int, dc: int| is_direction(dr, dc) && #[trigger] captures_in_dir(g, r, c, dr, dc, p)
}

/// The grid after the flip walk for one capturing direction: starting at
/// (nr, nc) and moving by (dr, dc), every opponent stone met is recolored
/// to `p`; the walk stops at the first stone of `p` (left unchanged), at
/// an empty square, or at the edge of the grid.
pub open spec fn flip_walk(g: Seq<Cell>, nr: int, nc: int, dr: int, dc: int, p: Player) -> Seq<
    Cell,
>
    decreases walk_measure(nr, nc, dr, dc),
        when is_direction(dr, dc)
{
    if !in_bounds(nr, nc) {
        g
    } else {
        match g[idx_of(nr, nc)] {
            Cell::Empty => g,
            Cell::Occupied(q) => if q == p {
                g
            } else {
                flip_walk(g.update(idx_of(nr, nc), Cell::Occupied(p)), nr + dr, nc + dc, dr, dc, p)
            },
        }
    }
}

/// One direction's contribution to a move: if the direction captures on
/// the current grid, its run of opponent stones is flipped; otherwise the
/// grid is unchanged.
pub open spec fn apply_one(g: Seq<Cell>, r: int, c: int, dr: int, dc: int, p: Player) -> Seq<
    Cell,
> {
    if captures_in_dir(g, r, c, dr, dc, p) {
        flip_walk(g, r + dr, c + dc, dr, dc, p)
    } else {
        g
    }
}

/// The grid after `p` moves at (r, c): the stone is placed, then the
/// eight directions are applied in a fixed order. Flips in one direction
/// never touch the squares another direction examines, so every capture
/// test may equally be made against the grid at placement time; that is
/// proved by `lemma_capture_tests_premove`.
pub open spec fn grid_after_move(g: Seq<Cell>, r: int, c: int, p: Player) -> Seq<Cell> {
    let placed = g.update(idx_of(r, c), Cell::Occupied(p));
    let g1 = apply_one(placed, r, c, -1, -1, p);
    let g2 = apply_one(g1, r, c, -1, 0, p);
    let g3 = apply_one(g2, r, c, -1, 1, p);
    let g4 = apply_one(g3, r, c, 0, -1, p);
    let g5 = apply_one(g4, r, c, 0, 1, p);
    let g6 = apply_one(g5, r, c, 1, -1, p);
    let g7 = apply_one(g6, r, c, 1, 0, p);
    apply_one(g7, r, c, 1, 1, p)
}

/// The grid of the fixed starting position: the four center squares
/// occupied, all others empty.
pub open spec fn init_grid() -> Seq<Cell> {
    Seq::new(64, |i: int|
        if i == idx_of(3, 3) {
            Cell::Occupied(Player::White)
        } else if i == idx_of(3, 4) {
            Cell::Occupied(Player::Black)
        } else if i == idx_of(4, 3) {
            Cell::Occupied(Player::Black)
        } else if i == idx_of(4, 4) {
            Cell::Occupied(Player::White)
        } else {
            Cell::Empty
        })
}

/// True when `p` has at least one legal placement somewhere on the grid.
pub open spec fn spec_has_valid_move(g: Seq<Cell>, p: Player) -> bool {
    exists|r: int, c: int| #[trigger] spec_valid_move(g, r, c, p)
}

/// The number of stones of `p` on the grid.
pub open spec fn count_player(g: Seq<Cell>, p: Player) -> int
    decreases g.len(),
{
    if g.len() == 0 {
        0
    } else {
        count_player(g.drop_last(), p) + if g.last() == Cell::Occupied(p) {
            1int
        } else {
            0int
        }
    }
}

/// The number of occupied squares on the grid.
pub open spec fn num_occupied(g: Seq<Cell>) -> int {
    count_player(g, Player::Black) + count_player(g, Player::White)
}

/// The 8x8 board. The grid is stored row-major; its view is the
/// sequence of its 64 cells.
pub struct Board {
    cells: Vec<Cell>,
}

impl View for Board {
    type V = Seq<Cell>;

    closed spec fn view(&self) -> Seq<Cell> {
        self.cells@
    }
}

impl Board {
    /// Well-formedness: the grid holds exactly 64 cells.
    pub open spec fn wf(&self) -> bool {
        self@.len() == 64
    }

    /// Creates a board in the fixed starting position.
    pub fn new() -> (b: Board)
        ensures
            b.wf(),
            b@ == init_grid(),
    {
        let mut cells: Vec<Cell> = Vec::new();
        let mut i: usize = 0;
        while i < 64
            invariant
                i <= 64,
                cells@.len() == i as int,
                forall|j: int| 0 <= j < i as int ==> cells@[j] == Cell::Empty,
            decreases 64 - i,
        {
            cells.push(Cell::Empty);
            i = i + 1;
        }
        // the four center stones, at (3,3), (3,4), (4,3) and (4,4)
        cells.set(27, Cell::Occupied(Player::White));
        cells.set(28, Cell::Occupied(Player::Black));
        cells.set(35, Cell::Occupied(Player::Black));
        cells.set(36, Cell::Occupied(Player::White));
        proof {
            assert(cells@ =~= init_grid());
        }
        Board { cells }
    }

    /// The directional capture test: walks outward from (r, c) one square
    /// at a time along (dr, dc), and reports whether a stone of `player`
    /// placed at (r, c) would flank at least one opponent stone in that
    /// direction.
    fn can_flip_in_direction(&self, r: i32, c: i32, dr: i32, dc: i32, player: Player) -> (cap:
        bool)
        requires
            self.wf(),
            in_bounds(r as int, c as int),
            is_direction(dr as int, dc as int),
        ensures
            cap == captures_in_dir(self@, r as int, c as int, dr as int, dc as int, player),
    {
        let mut nr: i32 = r + dr;
        let mut nc: i32 = c + dc;
        let mut seen_opponent: bool = false;

        while nr >= 0 && nr < 8 && nc >= 0 && nc < 8
            invariant
                self.wf(),
                is_direction(dr as int, dc as int),
                -1 <= nr as int <= 8,
                -1 <= nc as int <= 8,
                captures_in_dir(self@, r as int, c as int, dr as int, dc as int, player)
                    == capture_walk(
                    self@,
                    nr as int,
                    nc as int,
                    dr as int,
                    dc as int,
                    player,
                    seen_opponent,
                ),
            decreases walk_measure(nr as int, nc as int, dr as int, dc as int),
        {
            let idx: usize = (nr * 8 + nc) as usize;
            match self.cells[idx] {
                Cell::Empty => {
                    return false;
                },
                Cell::Occupied(p) => {
                    if p == player {
                        return seen_opponent;
                    } else {
                        seen_opponent = true;
                        nr = nr + dr;
                        nc = nc + dc;
                    }
                },
            }
        }
        false
    }

    /// Reports whether `player` may place a stone at (r, c): the square
    /// must be on the board and empty, and the placement must capture in
    /// at least one of the eight directions. Read-only; out-of-range
    /// coordinates are simply illegal.
    pub fn is_valid_move(&self, r: i32, c: i32, player: Player) -> (valid: bool)
        requires
            self.wf(),
        ensures
            valid == spec_valid_move(self@, r as int, c as int, player),
    {
        if r < 0 || r >= 8 || c < 0 || c >= 8 {
            return false;
        }
        let idx: usize = (r * 8 + c) as usize;
        if let Cell::Occupied(_) = self.cells[idx] {
            return false;
        }
        let d1 = self.can_flip_in_direction(r, c, -1, -1, player);
        let d2 = self.can_flip_in_direction(r, c, -1, 0, player);
        let d3 = self.can_flip_in_direction(r, c, -1, 1, player);
        let d4 = self.can_flip_in_direction(r, c, 0, -1, player);
        let d5 = self.can_flip_in_direction(r, c, 0, 1, player);
        let d6 = self.can_flip_in_direction(r, c, 1, -1, player);
        let d7 = self.can_flip_in_direction(r, c, 1, 0, player);
        let d8 = self.can_flip_in_direction(r, c, 1, 1, player);
        let found = d1 || d2 || d3 || d4 || d5 || d6 || d7 || d8;
        proof {
            if !found {
                assert(forall|dr: int, dc: int|
                    is_direction(dr, dc) ==> !#[trigger] captures_in_dir(
                        self@,
                        r as int,
                        c as int,
                        dr,
                        dc,
                        player,
                    ));
            }
        }
        found
    }

    /// The flip walk for one capturing direction: recolors the run of
    /// opponent stones starting one step out from (r, c) along (dr, dc),
    /// stopping at the first stone of `player`, at an empty square, or at
    /// the edge of the grid.
    fn flip_in_direction(&mut self, r: i32, c: i32, dr: i32, dc: i32, player: Player)
        requires
            old(self).wf(),
            in_bounds(r as int, c as int),
            is_direction(dr as int, dc as int),
        ensures
            final(self).wf(),
            final(self)@ == flip_walk(
                old(self)@,
                r as int + dr as int,
                c as int + dc as int,
                dr as int,
                dc as int,
                player,
            ),
    {
        let mut nr: i32 = r + dr;
        let mut nc: i32 = c + dc;

        while nr >= 0 && nr < 8 && nc >= 0 && nc < 8
            invariant
                self.wf(),
                is_direction(dr as int, dc as int),
                -1 <= nr as int <= 8,
                -1 <= nc as int <= 8,
                flip_walk(
                    old(self)@,
                    r as int + dr as int,
                    c as int + dc as int,
                    dr as int,
                    dc as int,
                    player,
                ) == flip_walk(self@, nr as int, nc as int, dr as int, dc as int, player),
            decreases walk_measure(nr as int, nc as int, dr as int, dc as int),
        {
            let idx: usize = (nr * 8 + nc) as usize;
            match self.cells[idx] {
                Cell::Occupied(p) => {
                    if p == player {
                        return;
                    } else {
                        self.cells.set(idx, Cell::Occupied(player));
                        nr = nr + dr;
                        nc = nc + dc;
                    }
                },
                Cell::Empty => {
                    return;
                },
            }
        }
    }

    /// Attempts the move of `player` at (r, c). An illegal target leaves
    /// the grid untouched and yields false. A legal one places the stone,
    /// flips every captured run in all eight directions, and yields true.
    pub fn make_move(&mut self, r: i32, c: i32, player: Player) -> (success: bool)
        requires
            old(self).wf(),
        ensures
            final(self).wf(),
            success == spec_valid_move(old(self)@, r as int, c as int, player),
            !success ==> final(self)@ == old(self)@,
            success ==> final(self)@ == grid_after_move(old(self)@, r as int, c as int, player),
    {
        if !self.is_valid_move(r, c, player) {
            return false;
        }
        let idx: usize = (r * 8 + c) as usize;
        self.cells.set(idx, Cell::Occupied(player));
        let ghost placed = self@;

        if self.can_flip_in_direction(r, c, -1, -1, player) {
            self.flip_in_direction(r, c, -1, -1, player);
        }
        let ghost g1 = self@;
        assert(g1 == apply_one(placed, r as int, c as int, -1, -1, player));

        if self.can_flip_in_direction(r, c, -1, 0, player) {
            self.flip_in_direction(r, c, -1, 0, player);
        }
        let ghost g2 = self@;
        assert(g2 == apply_one(g1, r as int, c as int, -1, 0, player));

        if self.can_flip_in_direction(r, c, -1, 1, player) {
            self.flip_in_direction(r, c, -1, 1, player);
        }
        let ghost g3 = self@;
        assert(g3 == apply_one(g2, r as int, c as int, -1, 1, player));

        if self.can_flip_in_direction(r, c, 0, -1, player) {
            self.flip_in_direction(r, c, 0, -1, player);
        }
        let ghost g4 = self@;
        assert(g4 == apply_one(g3, r as int, c as int, 0, -1, player));

        if self.can_flip_in_direction(r, c, 0, 1, player) {
            self.flip_in_direction(r, c, 0, 1, player);
        }
        let ghost g5 = self@;
        assert(g5 == apply_one(g4, r as int, c as int, 0, 1, player));

        if self.can_flip_in_direction(r, c, 1, -1, player) {
            self.flip_in_direction(r, c, 1, -1, player);
        }
        let ghost g6 = self@;
        assert(g6 == apply_one(g5, r as int, c as int, 1, -1, player));

        if self.can_flip_in_direction(r, c, 1, 0, player) {
            self.flip_in_direction(r, c, 1, 0, player);
        }
        let ghost g7 = self@;
        assert(g7 == apply_one(g6, r as int, c as int, 1, 0, player));

        if self.can_flip_in_direction(r, c, 1, 1, player) {
            self.flip_in_direction(r, c, 1, 1, player);
        }
        assert(self@ == apply_one(g7, r as int, c as int, 1, 1, player));

        true
    }

    /// Reports whether `player` can place a stone anywhere on the board,
    /// by scanning all 64 squares. Used to detect forced passes and the
    /// end of the game.
    pub fn has_valid_move(&self, player: Player) -> (has: bool)
        requires
            self.wf(),
        ensures
            has == spec_has_valid_move(self@, player),
    {
        let mut r: i32 = 0;
        while r < 8
            invariant
                self.wf(),
                0 <= r as int <= 8,
                forall|i: int, j: int|
                    0 <= i < r as int && 0 <= j < 8 ==> !#[trigger] spec_valid_move(
                        self@,
                        i,
                        j,
                        player,
                    ),
            decreases 8 - r,
        {
            let mut c: i32 = 0;
            while c < 8
                invariant
                    self.wf(),
                    0 <= r as int <= 7,
                    0 <= c as int <= 8,
                    forall|i: int, j: int|
                        0 <= i < r as int && 0 <= j < 8 ==> !#[trigger] spec_valid_move(
                            self@,
                            i,
                            j,
                            player,
                        ),
                    forall|j: int|
                        0 <= j < c as int ==> !#[trigger] spec_valid_move(
                            self@,
                            r as int,
                            j,
                            player,
                        ),
                decreases 8 - c,
            {
                if self.is_valid_move(r, c, player) {
                    return true;
                }
                c = c + 1;
            }
            r = r + 1;
        }
        false
    }

    /// Tallies the stones of each color: (black count, white count).
    pub fn count_stones(&self) -> (counts: (i32, i32))
        requires
            self.wf(),
        ensures
            counts.0 as int == count_player(self@, Player::Black),
            counts.1 as int == count_player(self@, Player::White),
    {
        let mut black: i32 = 0;
        let mut white: i32 = 0;
        let mut i: usize = 0;
        while i < 64
            invariant
                self.wf(),
                i <= 64,
                0 <= black as int <= i as int,
                0 <= white as int <= i as int,
                black as int == count_player(self@.take(i as int), Player::Black),
                white as int == count_player(self@.take(i as int), Player::White),
            decreases 64 - i,
        {
            proof {
                lemma_count_take_step(self@, i as int, Player::Black);
                lemma_count_take_step(self@, i as int, Player::White);
            }
            match self.cells[i] {
                Cell::Occupied(Player::Black) => {
                    black = black + 1;
                },
                Cell::Occupied(Player::White) => {
                    white = white + 1;
                },
                Cell::Empty => {},
            }
            i = i + 1;
        }
        proof {
            assert(self@.take(64) =~= self@);
        }
        (black, white)
    }

    /// Reads one square of the grid.
    pub fn cell(&self, r: i32, c: i32) -> (cell: Cell)
        requires
            self.wf(),
            in_bounds(r as int, c as int),
        ensures
            cell == self@[idx_of(r as int, c as int)],
    {
        self.cells[(r * 8 + c) as usize]
    }
}

/// Counting the stones of `p` over one more square of the grid adds that
/// square's contribution.
proof fn lemma_count_take_step(s: Seq<Cell>, i: int, p: Player)
    requires
        0 <= i < s.len(),
    ensures
        count_player(s.take(i + 1), p) == count_player(s.take(i), p) + (if s[i] == Cell::Occupied(
            p,
        ) {
            1int
        } else {
            0int
        }),
{
    assert(s.take(i + 1).drop_last() =~= s.take(i));
    assert(s.take(i + 1).last() == s[i]);
}

/// Overwriting one square changes the tally of `p` by exactly the
/// difference of the old and new square's contributions.
proof fn lemma_count_update(g: Seq<Cell>, i: int, v: Cell, p: Player)
    requires
        0 <= i < g.len(),
    ensures
        count_player(g.update(i, v), p) == count_player(g, p) - (if g[i] == Cell::Occupied(p) {
            1int
        } else {
            0int
        }) + (if v == Cell::Occupied(p) {
            1int
        } else {
            0int
        }),
    decreases g.len(),
{
    if i == g.len() - 1 {
        assert(g.update(i, v).drop_last() =~= g.drop_last());
    } else {
        lemma_count_update(g.drop_last(), i, v, p);
        assert(g.update(i, v).drop_last() =~= g.drop_last().update(i, v));
    }
}

/// Law: a flip walk recolors stones but never adds or removes one, so the
/// number of occupied squares is unchanged by it.
pub proof fn lemma_flip_walk_preserves_occupancy(
    g: Seq<Cell>,
    nr: int,
    nc: int,
    dr: int,
    dc: int,
    p: Player,
)
    requires
        g.len() == 64,
        is_direction(dr, dc),
    ensures
        flip_walk(g, nr, nc, dr, dc, p).len() == 64,
        num_occupied(flip_walk(g, nr, nc, dr, dc, p)) == num_occupied(g),
    decreases walk_measure(nr, nc, dr, dc),
{
    if in_bounds(nr, nc) {
        match g[idx_of(nr, nc)] {
            Cell::Occupied(q) => {
                if q != p {
                    let g2 = g.update(idx_of(nr, nc), Cell::Occupied(p));
                    lemma_count_update(g, idx_of(nr, nc), Cell::Occupied(p), Player::Black);
                    lemma_count_update(g, idx_of(nr, nc), Cell::Occupied(p), Player::White);
                    lemma_flip_walk_preserves_occupancy(g2, nr + dr, nc + dc, dr, dc, p);
                }
            },
            Cell::Empty => {},
        }
    }
}

/// One direction's contribution to a move leaves the number of occupied
/// squares unchanged: it either flips a run or does nothing.
proof fn lemma_apply_one_preserves_occupancy(
    g: Seq<Cell>,
    r: int,
    c: int,
    dr: int,
    dc: int,
    p: Player,
)
    requires
        g.len() == 64,
        is_direction(dr, dc),
    ensures
        apply_one(g, r, c, dr, dc, p).len() == 64,
        num_occupied(apply_one(g, r, c, dr, dc, p)) == num_occupied(g),
{
    if captures_in_dir(g, r, c, dr, dc, p) {
        lemma_flip_walk_preserves_occupancy(g, r + dr, c + dc, dr, dc, p);
    }
}

/// Law: a move onto an empty in-bounds square raises the number of
/// occupied squares by exactly one — the placed stone; the flips only
/// recolor squares that were already occupied.
pub proof fn lemma_move_adds_one_stone(g: Seq<Cell>, r: int, c: int, p: Player)
    requires
        g.len() == 64,
        in_bounds(r, c),
        g[idx_of(r, c)] == Cell::Empty,
    ensures
        grid_after_move(g, r, c, p).len() == 64,
        num_occupied(grid_after_move(g, r, c, p)) == num_occupied(g) + 1,
{
    let placed = g.update(idx_of(r, c), Cell::Occupied(p));
    lemma_count_update(g, idx_of(r, c), Cell::Occupied(p), Player::Black);
    lemma_count_update(g, idx_of(r, c), Cell::Occupied(p), Player::White);
    assert(num_occupied(placed) == num_occupied(g) + 1);
    let g1 = apply_one(placed, r, c, -1, -1, p);
    lemma_apply_one_preserves_occupancy(placed, r, c, -1, -1, p);
    let g2 = apply_one(g1, r, c, -1, 0, p);
    lemma_apply_one_preserves_occupancy(g1, r, c, -1, 0, p);
    let g3 = apply_one(g2, r, c, -1, 1, p);
    lemma_apply_one_preserves_occupancy(g2, r, c, -1, 1, p);
    let g4 = apply_one(g3, r, c, 0, -1, p);
    lemma_apply_one_preserves_occupancy(g3, r, c, 0, -1, p);
    let g5 = apply_one(g4, r, c, 0, 1, p);
    lemma_apply_one_preserves_occupancy(g4, r, c, 0, 1, p);
    let g6 = apply_one(g5, r, c, 1, -1, p);
    lemma_apply_one_preserves_occupancy(g5, r, c, 1, -1, p);
    let g7 = apply_one(g6, r, c, 1, 0, p);
    lemma_apply_one_preserves_occupancy(g6, r, c, 1, 0, p);
    lemma_apply_one_preserves_occupancy(g7, r, c, 1, 1, p);
}

/// Law: a flip walk changes a square only by recoloring an opponent stone
/// to `p`; every other square keeps its exact contents.
pub proof fn lemma_flip_walk_only_recolors(
    g: Seq<Cell>,
    nr: int,
    nc: int,
    dr: int,
    dc: int,
    p: Player,
)
    requires
        g.len() == 64,
        is_direction(dr, dc),
    ensures
        flip_walk(g, nr, nc, dr, dc, p).len() == g.len(),
        forall|i: int|
            0 <= i < g.len() ==> #[trigger] flip_walk(g, nr, nc, dr, dc, p)[i] == g[i] || (g[i]
                == Cell::Occupied(p.spec_opponent()) && flip_walk(g, nr, nc, dr, dc, p)[i]
                == Cell::Occupied(p)),
    decreases walk_measure(nr, nc, dr, dc),
{
    if in_bounds(nr, nc) {
        match g[idx_of(nr, nc)] {
            Cell::Occupied(q) => {
                if q != p {
                    let g2 = g.update(idx_of(nr, nc), Cell::Occupied(p));
                    lemma_flip_walk_only_recolors(g2, nr + dr, nc + dc, dr, dc, p);
                }
            },
            Cell::Empty => {},
        }
    }
}

/// One direction's contribution to a move changes a square only by
/// recoloring an opponent stone to `p`.
proof fn lemma_apply_one_only_recolors(g: Seq<Cell>, r: int, c: int, dr: int, dc: int, p: Player)
    requires
        g.len() == 64,
        is_direction(dr, dc),
    ensures
        apply_one(g, r, c, dr, dc, p).len() == g.len(),
        forall|i: int|
            0 <= i < g.len() ==> #[trigger] apply_one(g, r, c, dr, dc, p)[i] == g[i] || (g[i]
                == Cell::Occupied(p.spec_opponent()) && apply_one(g, r, c, dr, dc, p)[i]
                == Cell::Occupied(p)),
{
    if captures_in_dir(g, r, c, dr, dc, p) {
        lemma_flip_walk_only_recolors(g, r + dr, c + dc, dr, dc, p);
    }
}

/// Law: after a move of `p` at (r, c), the square (r, c) holds a stone of
/// `p`; the flips walk away from the origin and never touch it.
pub proof fn lemma_move_places_stone(g: Seq<Cell>, r: int, c: int, p: Player)
    requires
        g.len() == 64,
        in_bounds(r, c),
    ensures
        grid_after_move(g, r, c, p)[idx_of(r, c)] == Cell::Occupied(p),
{
    let placed = g.update(idx_of(r, c), Cell::Occupied(p));
    let g1 = apply_one(placed, r, c, -1, -1, p);
    lemma_apply_one_only_recolors(placed, r, c, -1, -1, p);
    let g2 = apply_one(g1, r, c, -1, 0, p);
    lemma_apply_one_only_recolors(g1, r, c, -1, 0, p);
    let g3 = apply_one(g2, r, c, -1, 1, p);
    lemma_apply_one_only_recolors(g2, r, c, -1, 1, p);
    let g4 = apply_one(g3, r, c, 0, -1, p);
    lemma_apply_one_only_recolors(g3, r, c, 0, -1, p);
    let g5 = apply_one(g4, r, c, 0, 1, p);
    lemma_apply_one_only_recolors(g4, r, c, 0, 1, p);
    let g6 = apply_one(g5, r, c, 1, -1, p);
    lemma_apply_one_only_recolors(g5, r, c, 1, -1, p);
    let g7 = apply_one(g6, r, c, 1, 0, p);
    lemma_apply_one_only_recolors(g6, r, c, 1, 0, p);
    lemma_apply_one_only_recolors(g7, r, c, 1, 1, p);
}

/// Law: apart from the origin square, a move changes a square only by
/// recoloring an opponent stone to the mover's color; empty squares stay
/// empty and the mover's own stones are never touched.
pub proof fn lemma_move_only_recolors_elsewhere(g: Seq<Cell>, r: int, c: int, p: Player)
    requires
        g.len() == 64,
        in_bounds(r, c),
    ensures
        forall|i: int|
            0 <= i < 64 && i != idx_of(r, c) ==> #[trigger] grid_after_move(g, r, c, p)[i] == g[i]
                || (g[i] == Cell::Occupied(p.spec_opponent()) && grid_after_move(g, r, c, p)[i]
                == Cell::Occupied(p)),
{
    let placed = g.update(idx_of(r, c), Cell::Occupied(p));
    let g1 = apply_one(placed, r, c, -1, -1, p);
    lemma_apply_one_only_recolors(placed, r, c, -1, -1, p);
    let g2 = apply_one(g1, r, c, -1, 0, p);
    lemma_apply_one_only_recolors(g1, r, c, -1, 0, p);
    let g3 = apply_one(g2, r, c, -1, 1, p);
    lemma_apply_one_only_recolors(g2, r, c, -1, 1, p);
    let g4 = apply_one(g3, r, c, 0, -1, p);
    lemma_apply_one_only_recolors(g3, r, c, 0, -1, p);
    let g5 = apply_one(g4, r, c, 0, 1, p);
    lemma_apply_one_only_recolors(g4, r, c, 0, 1, p);
    let g6 = apply_one(g5, r, c, 1, -1, p);
    lemma_apply_one_only_recolors(g5, r, c, 1, -1, p);
    let g7 = apply_one(g6, r, c, 1, 0, p);
    lemma_apply_one_only_recolors(g6, r, c, 1, 0, p);
    lemma_apply_one_only_recolors(g7, r, c, 1, 1, p);
}

/// Law: a placement outside the board is never valid, whatever the grid
/// holds.
pub proof fn lemma_out_of_bounds_invalid(g: Seq<Cell>, r: int, c: int, p: Player)
    requires
        !in_bounds(r, c),
    ensures
        !spec_valid_move(g, r, c, p),
{
}

/// Law: a placement on an already occupied square is never valid,
/// whatever the rest of the grid holds.
pub proof fn lemma_occupied_square_invalid(g: Seq<Cell>, r: int, c: int, p: Player)
    requires
        g[idx_of(r, c)] is Occupied,
    ensures
        !spec_valid_move(g, r, c, p),
{
}

/// Law: when a player has no valid move anywhere on a grid, every
/// placement of theirs on that grid is illegal; a driver that finds both
/// players blocked can therefore stop, since no move would succeed.
pub proof fn lemma_no_moves_means_all_rejected(g: Seq<Cell>, p: Player)
    requires
        !spec_has_valid_move(g, p),
    ensures
        forall|r: int, c: int| !#[trigger] spec_valid_move(g, r, c, p),
{
}

/// Law: comparing the two final tallies names exactly one outcome —
/// Black ahead, White ahead, or a tie. Once neither player has a valid
/// move the driver stops and settles the game by this comparison.
pub proof fn lemma_score_trichotomy(g: Seq<Cell>)
    ensures
        count_player(g, Player::Black) > count_player(g, Player::White) || count_player(
            g,
            Player::White,
        ) > count_player(g, Player::Black) || count_player(g, Player::Black) == count_player(
            g,
            Player::White,
        ),
        !(count_player(g, Player::Black) > count_player(g, Player::White) && count_player(
            g,
            Player::White,
        ) > count_player(g, Player::Black)),
        count_player(g, Player::Black) == count_player(g, Player::White) ==> !(count_player(
            g,
            Player::Black,
        ) > count_player(g, Player::White)) && !(count_player(g, Player::White) > count_player(
            g,
            Player::Black,
        )),
{
}

/// True when (i, j) is one of the squares visited by a walk that starts
/// at (nr, nc), moves by (dr, dc), and stops at the edge of the grid.
pub open spec fn on_ray(nr: int, nc: int, dr: int, dc: int, i: int, j: int) -> bool
    decreases walk_measure(nr, nc, dr, dc),
        when is_direction(dr, dc)
{
    if !in_bounds(nr, nc) {
        false
    } else {
        (nr == i && nc == j) || on_ray(nr + dr, nc + dc, dr, dc, i, j)
    }
}

/// The square reached from (nr, nc) after k steps of (dr, dc).
pub open spec fn ray_point(nr: int, nc: int, dr: int, dc: int, k: int) -> (int, int) {
    (nr + k * dr, nc + k * dc)
}

/// Every square of a ray stands a whole number of steps from its start.
proof fn lemma_on_ray_position(nr: int, nc: int, dr: int, dc: int, i: int, j: int)
    requires
        is_direction(dr, dc),
        on_ray(nr, nc, dr, dc, i, j),
    ensures
        in_bounds(i, j),
        exists|k: int| 0 <= k && (i, j) == #[trigger] ray_point(nr, nc, dr, dc, k),
    decreases walk_measure(nr, nc, dr, dc),
{
    if nr == i && nc == j {
        assert((i, j) == ray_point(nr, nc, dr, dc, 0));
    } else {
        lemma_on_ray_position(nr + dr, nc + dc, dr, dc, i, j);
        let k0 = choose|k: int|
            0 <= k && (i, j) == #[trigger] ray_point(nr + dr, nc + dc, dr, dc, k);
        assert((k0 + 1) * dr == k0 * dr + dr && (k0 + 1) * dc == k0 * dc + dc)
            by (nonlinear_arith);
        assert((i, j) == ray_point(nr, nc, dr, dc, k0 + 1));
    }
}

/// The rays of two distinct directions leaving the same origin share no
/// square beyond the origin itself.
proof fn lemma_distinct_rays_disjoint(
    r0: int,
    c0: int,
    d1r: int,
    d1c: int,
    d2r: int,
    d2c: int,
    i: int,
    j: int,
)
    requires
        is_direction(d1r, d1c),
        is_direction(d2r, d2c),
        !(d1r == d2r && d1c == d2c),
        on_ray(r0 + d1r, c0 + d1c, d1r, d1c, i, j),
    ensures
        !on_ray(r0 + d2r, c0 + d2c, d2r, d2c, i, j),
{
    if on_ray(r0 + d2r, c0 + d2c, d2r, d2c, i, j) {
        lemma_on_ray_position(r0 + d1r, c0 + d1c, d1r, d1c, i, j);
        lemma_on_ray_position(r0 + d2r, c0 + d2c, d2r, d2c, i, j);
        let k1 = choose|k: int|
            0 <= k && (i, j) == #[trigger] ray_point(r0 + d1r, c0 + d1c, d1r, d1c, k);
        let k2 = choose|k: int|
            0 <= k && (i, j) == #[trigger] ray_point(r0 + d2r, c0 + d2c, d2r, d2c, k);
        assert(false) by (nonlinear_arith)
            requires
                0 <= k1,
                0 <= k2,
                d1r + k1 * d1r == d2r + k2 * d2r,
                d1c + k1 * d1c == d2c + k2 * d2c,
                -1 <= d1r <= 1,
                -1 <= d1c <= 1,
                -1 <= d2r <= 1,
                -1 <= d2c <= 1,
                !(d1r == 0 && d1c == 0),
                !(d2r == 0 && d2c == 0),
                !(d1r == d2r && d1c == d2c),
        ;
    }
}

/// A ray never returns to the square it leaves from.
proof fn lemma_ray_misses_origin(r0: int, c0: int, dr: int, dc: int)
    requires
        is_direction(dr, dc),
    ensures
        !on_ray(r0 + dr, c0 + dc, dr, dc, r0, c0),
{
    if on_ray(r0 + dr, c0 + dc, dr, dc, r0, c0) {
        lemma_on_ray_position(r0 + dr, c0 + dc, dr, dc, r0, c0);
        let k = choose|k: int|
            0 <= k && (r0, c0) == #[trigger] ray_point(r0 + dr, c0 + dc, dr, dc, k);
        assert(false) by (nonlinear_arith)
            requires
                0 <= k,
                dr + k * dr == 0,
                dc + k * dc == 0,
                !(dr == 0 && dc == 0),
        ;
    }
}

/// The capture test reads only the squares of its own ray: two grids that
/// agree there give the same verdict.
proof fn lemma_capture_walk_frame(
    g1: Seq<Cell>,
    g2: Seq<Cell>,
    nr: int,
    nc: int,
    dr: int,
    dc: int,
    p: Player,
    seen_opponent: bool,
)
    requires
        is_direction(dr, dc),
        forall|i: int, j: int|
            in_bounds(i, j) && #[trigger] on_ray(nr, nc, dr, dc, i, j) ==> g1[idx_of(i, j)]
                == g2[idx_of(i, j)],
    ensures
        capture_walk(g1, nr, nc, dr, dc, p, seen_opponent) == capture_walk(
            g2,
            nr,
            nc,
            dr,
            dc,
            p,
            seen_opponent,
        ),
    decreases walk_measure(nr, nc, dr, dc),
{
    if in_bounds(nr, nc) {
        assert(on_ray(nr, nc, dr, dc, nr, nc));
        assert forall|i: int, j: int|
            in_bounds(i, j) && #[trigger] on_ray(nr + dr, nc + dc, dr, dc, i, j) implies g1[idx_of(
            i,
            j,
        )] == g2[idx_of(i, j)] by {
            assert(on_ray(nr, nc, dr, dc, i, j));
        }
        lemma_capture_walk_frame(g1, g2, nr + dr, nc + dc, dr, dc, p, true);
    }
}

/// The flip walk writes only to the squares of its own ray; every square
/// off the ray keeps its contents.
proof fn lemma_flip_walk_frame(g: Seq<Cell>, nr: int, nc: int, dr: int, dc: int, p: Player)
    requires
        g.len() == 64,
        is_direction(dr, dc),
    ensures
        forall|i: int, j: int|
            in_bounds(i, j) && !(#[trigger] on_ray(nr, nc, dr, dc, i, j)) ==> flip_walk(
                g,
                nr,
                nc,
                dr,
                dc,
                p,
            )[idx_of(i, j)] == g[idx_of(i, j)],
    decreases walk_measure(nr, nc, dr, dc),
{
    if in_bounds(nr, nc) {
        match g[idx_of(nr, nc)] {
            Cell::Occupied(q) => {
                if q != p {
                    let g2 = g.update(idx_of(nr, nc), Cell::Occupied(p));
                    lemma_flip_walk_frame(g2, nr + dr, nc + dc, dr, dc, p);
                    assert forall|i: int, j: int|
                        in_bounds(i, j) && !(#[trigger] on_ray(
                            nr,
                            nc,
                            dr,
                            dc,
                            i,
                            j,
                        )) implies flip_walk(g, nr, nc, dr, dc, p)[idx_of(i, j)] == g[idx_of(
                        i,
                        j,
                    )] by {
                        assert(!(i == nr && j == nc));
                        assert(!on_ray(nr + dr, nc + dc, dr, dc, i, j));
                        assert(g2[idx_of(i, j)] == g[idx_of(i, j)]);
                        assert(flip_walk(g2, nr + dr, nc + dc, dr, dc, p)[idx_of(i, j)]
                            == g2[idx_of(i, j)]);
                    }
                }
            },
            Cell::Empty => {},
        }
    }
}

/// Law: flipping one direction's run never changes the capture test of a
/// different direction from the same origin — the two read and write
/// disjoint rays.
pub proof fn lemma_flip_preserves_other_captures(
    g: Seq<Cell>,
    r: int,
    c: int,
    d1r: int,
    d1c: int,
    d2r: int,
    d2c: int,
    p: Player,
)
    requires
        g.len() == 64,
        is_direction(d1r, d1c),
        is_direction(d2r, d2c),
        !(d1r == d2r && d1c == d2c),
    ensures
        captures_in_dir(apply_one(g, r, c, d1r, d1c, p), r, c, d2r, d2c, p) == captures_in_dir(
            g,
            r,
            c,
            d2r,
            d2c,
            p,
        ),
{
    if captures_in_dir(g, r, c, d1r, d1c, p) {
        let flipped = flip_walk(g, r + d1r, c + d1c, d1r, d1c, p);
        lemma_flip_walk_frame(g, r + d1r, c + d1c, d1r, d1c, p);
        assert forall|i: int, j: int|
            in_bounds(i, j) && #[trigger] on_ray(r + d2r, c + d2c, d2r, d2c, i, j) implies flipped[
            idx_of(i, j)
        ] == g[idx_of(i, j)] by {
            if on_ray(r + d1r, c + d1c, d1r, d1c, i, j) {
                lemma_distinct_rays_disjoint(r, c, d1r, d1c, d2r, d2c, i, j);
            }
        }
        lemma_capture_walk_frame(flipped, g, r + d2r, c + d2c, d2r, d2c, p, false);
    }
}

/// Law: placing the stone at the origin leaves every capture test as it
/// was on the pre-move grid — the walk never reads its own origin.
pub proof fn lemma_placement_preserves_captures(
    g: Seq<Cell>,
    r: int,
    c: int,
    dr: int,
    dc: int,
    p: Player,
    q: Player,
)
    requires
        g.len() == 64,
        in_bounds(r, c),
        is_direction(dr, dc),
    ensures
        captures_in_dir(g.update(idx_of(r, c), Cell::Occupied(q)), r, c, dr, dc, p)
            == captures_in_dir(g, r, c, dr, dc, p),
{
    let placed = g.update(idx_of(r, c), Cell::Occupied(q));
    lemma_ray_misses_origin(r, c, dr, dc);
    assert forall|i: int, j: int|
        in_bounds(i, j) && #[trigger] on_ray(r + dr, c + dc, dr, dc, i, j) implies placed[idx_of(
        i,
        j,
    )] == g[idx_of(i, j)] by {
        if i == r && j == c {
            assert(false);
        }
    }
    lemma_capture_walk_frame(placed, g, r + dr, c + dc, dr, dc, p, false);
}

/// The grid after `p` moves at (r, c), with every direction's capture
/// test made against the pre-move grid instead of the partially flipped
/// one.
pub open spec fn grid_after_move_premove_tests(g: Seq<Cell>, r: int, c: int, p: Player) -> Seq<
    Cell,
> {
    let placed = g.update(idx_of(r, c), Cell::Occupied(p));
    let h1 = if captures_in_dir(g, r, c, -1, -1, p) {
        flip_walk(placed, r - 1, c - 1, -1, -1, p)
    } else {
        placed
    };
    let h2 = if captures_in_dir(g, r, c, -1, 0, p) {
        flip_walk(h1, r - 1, c, -1, 0, p)
    } else {
        h1
    };
    let h3 = if captures_in_dir(g, r, c, -1, 1, p) {
        flip_walk(h2, r - 1, c + 1, -1, 1, p)
    } else {
        h2
    };
    let h4 = if captures_in_dir(g, r, c, 0, -1, p) {
        flip_walk(h3, r, c - 1, 0, -1, p)
    } else {
        h3
    };
    let h5 = if captures_in_dir(g, r, c, 0, 1, p) {
        flip_walk(h4, r, c + 1, 0, 1, p)
    } else {
        h4
    };
    let h6 = if captures_in_dir(g, r, c, 1, -1, p) {
        flip_walk(h5, r + 1, c - 1, 1, -1, p)
    } else {
        h5
    };
    let h7 = if captures_in_dir(g, r, c, 1, 0, p) {
        flip_walk(h6, r + 1, c, 1, 0, p)
    } else {
        h6
    };
    if captures_in_dir(g, r, c, 1, 1, p) {
        flip_walk(h7, r + 1, c + 1, 1, 1, p)
    } else {
        h7
    }
}

/// Law: the two grids agree — flips in one direction never affect the
/// capture determination of another, and the placed stone is never read
/// by any walk, so all eight capture tests may be evaluated against the
/// pre-move grid.
pub proof fn lemma_capture_tests_premove(g: Seq<Cell>, r: int, c: int, p: Player)
    requires
        g.len() == 64,
        in_bounds(r, c),
    ensures
        grid_after_move(g, r, c, p) == grid_after_move_premove_tests(g, r, c, p),
{
    let placed = g.update(idx_of(r, c), Cell::Occupied(p));
    let g1 = apply_one(placed, r, c, -1, -1, p);
    let g2 = apply_one(g1, r, c, -1, 0, p);
    let g3 = apply_one(g2, r, c, -1, 1, p);
    let g4 = apply_one(g3, r, c, 0, -1, p);
    let g5 = apply_one(g4, r, c, 0, 1, p);
    let g6 = apply_one(g5, r, c, 1, -1, p);
    let g7 = apply_one(g6, r, c, 1, 0, p);

    lemma_apply_one_preserves_occupancy(placed, r, c, -1, -1, p);
    lemma_apply_one_preserves_occupancy(g1, r, c, -1, 0, p);
    lemma_apply_one_preserves_occupancy(g2, r, c, -1, 1, p);
    lemma_apply_one_preserves_occupancy(g3, r, c, 0, -1, p);
    lemma_apply_one_preserves_occupancy(g4, r, c, 0, 1, p);
    lemma_apply_one_preserves_occupancy(g5, r, c, 1, -1, p);
    lemma_apply_one_preserves_occupancy(g6, r, c, 1, 0, p);

    lemma_placement_preserves_captures(g, r, c, -1, -1, p, p);

    lemma_flip_preserves_other_captures(placed, r, c, -1, -1, -1, 0, p);
    lemma_placement_preserves_captures(g, r, c, -1, 0, p, p);

    lemma_flip_preserves_other_captures(g1, r, c, -1, 0, -1, 1, p);
    lemma_flip_preserves_other_captures(placed, r, c, -1, -1, -1, 1, p);
    lemma_placement_preserves_captures(g, r, c, -1, 1, p, p);

    lemma_flip_preserves_other_captures(g2, r, c, -1, 1, 0, -1, p);
    lemma_flip_preserves_other_captures(g1, r, c, -1, 0, 0, -1, p);
    lemma_flip_preserves_other_captures(placed, r, c, -1, -1, 0, -1, p);
    lemma_placement_preserves_captures(g, r, c, 0, -1, p, p);

    lemma_flip_preserves_other_captures(g3, r, c, 0, -1, 0, 1, p);
    lemma_flip_preserves_other_captures(g2, r, c, -1, 1, 0, 1, p);
    lemma_flip_preserves_other_captures(g1, r, c, -1, 0, 0, 1, p);
    lemma_flip_preserves_other_captures(placed, r, c, -1, -1, 0, 1, p);
    lemma_placement_preserves_captures(g, r, c, 0, 1, p, p);

    lemma_flip_preserves_other_captures(g4, r, c, 0, 1, 1, -1, p);
    lemma_flip_preserves_other_captures(g3, r, c, 0, -1, 1, -1, p);
    lemma_flip_preserves_other_captures(g2, r, c, -1, 1, 1, -1, p);
    lemma_flip_preserves_other_captures(g1, r, c, -1, 0, 1, -1, p);
    lemma_flip_preserves_other_captures(placed, r, c, -1, -1, 1, -1, p);
    lemma_placement_preserves_captures(g, r, c, 1, -1, p, p);

    lemma_flip_preserves_other_captures(g5, r, c, 1, -1, 1, 0, p);
    lemma_flip_preserves_other_captures(g4, r, c, 0, 1, 1, 0, p);
    lemma_flip_preserves_other_captures(g3, r, c, 0, -1, 1, 0, p);
    lemma_flip_preserves_other_captures(g2, r, c, -1, 1, 1, 0, p);
    lemma_flip_preserves_other_captures(g1, r, c, -1, 0, 1, 0, p);
    lemma_flip_preserves_other_captures(placed, r, c, -1, -1, 1, 0, p);
    lemma_placement_preserves_captures(g, r, c, 1, 0, p, p);

    lemma_flip_preserves_other_captures(g6, r, c, 1, 0, 1, 1, p);
    lemma_flip_preserves_other_captures(g5, r, c, 1, -1, 1, 1, p);
    lemma_flip_preserves_other_captures(g4, r, c, 0, 1, 1, 1, p);
    lemma_flip_preserves_other_captures(g3, r, c, 0, -1, 1, 1, p);
    lemma_flip_preserves_other_captures(g2, r, c, -1, 1, 1, 1, p);
    lemma_flip_preserves_other_captures(g1, r, c, -1, 0, 1, 1, p);
    lemma_flip_preserves_other_captures(placed, r, c, -1, -1, 1, 1, p);
    lemma_placement_preserves_captures(g, r, c, 1, 1, p, p);
}

/// Law: the two tallies are non-negative and never exceed the number of
/// squares; in particular a board holds at most 64 stones.
pub proof fn lemma_occupancy_bounds(g: Seq<Cell>)
    ensures
        0 <= count_player(g, Player::Black),
        0 <= count_player(g, Player::White),
        num_occupied(g) <= g.len(),
    decreases g.len(),
{
    if g.len() > 0 {
        lemma_occupancy_bounds(g.drop_last());
    }
}

} // verus!
