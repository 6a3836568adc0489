//! The puzzle state as plain values, the move rule and replay.

use vstd::prelude::*;
use vstd::arithmetic::div_mod::{lemma_fundamental_div_mod, lemma_fundamental_div_mod_converse};
use sokoban::{Direction, State, Tile};
use crate::grid::{copy_positions, copy_tiles, same_position, step, Position};

verus! {

/// The mathematical model of a puzzle state: a row-major grid of tiles, the
/// player's position and the ordered target positions.
pub struct Board {
    pub rows: usize,
    pub cols: usize,
    pub tiles: Seq<Tile>,
    pub player: Position,
    pub targets: Seq<Position>,
}

impl Board {
    /// The grid has exactly `rows * cols` tiles.
    pub open spec fn shaped(self) -> bool {
        self.tiles.len() == self.rows * self.cols
    }

    pub open spec fn in_bounds(self, pos: Position) -> bool {
        pos.0 < self.rows && pos.1 < self.cols
    }

    /// Row-major index of a position.
    pub open spec fn index(self, pos: Position) -> int {
        pos.0 * self.cols + pos.1
    }

    /// The position of a row-major index.
    pub open spec fn position(self, i: int) -> Position {
        ((i / (self.cols as int)) as usize, (i % (self.cols as int)) as usize)
    }

    pub open spec fn at(self, pos: Position) -> Tile {
        self.tiles[self.index(pos)]
    }

    pub open spec fn floor_at(self, pos: Position) -> bool {
        self.in_bounds(pos) && self.at(pos) == Tile::Floor
    }

    pub open spec fn crate_at(self, pos: Position) -> bool {
        self.in_bounds(pos) && self.at(pos) == Tile::Crate
    }

    pub open spec fn wall_at(self, pos: Position) -> bool {
        self.in_bounds(pos) && self.at(pos) == Tile::Wall
    }

    /// A valid state: a well-shaped grid, the player on a floor tile, every
    /// target inside the grid and not on a wall.
    pub open spec fn wf(self) -> bool {
        &&& self.shaped()
        &&& self.floor_at(self.player)
        &&& forall|i: int|
            0 <= i < self.targets.len() ==> self.in_bounds(#[trigger] self.targets[i])
                && self.at(self.targets[i]) != Tile::Wall
    }

    pub open spec fn with_tile(self, pos: Position, tile: Tile) -> Board {
        Board { tiles: self.tiles.update(self.index(pos), tile), ..self }
    }

    pub open spec fn with_player(self, pos: Position) -> Board {
        Board { player: pos, ..self }
    }

    /// The move rule: the player steps onto a floor tile, or pushes a crate
    /// one tile further onto a floor tile; anything else is illegal.
    pub open spec fn moved(self, dir: Direction) -> Option<Board> {
        match step(dir, self.player) {
            Some(next) => if !self.in_bounds(next) {
                None
            } else {
                match self.at(next) {
                    Tile::Floor => Some(self.with_player(next)),
                    Tile::Wall => None,
                    Tile::Crate => match step(dir, next) {
                        Some(beyond) => if self.floor_at(beyond) {
                            Some(
                                self.with_tile(next, Tile::Floor).with_tile(
                                    beyond,
                                    Tile::Crate,
                                ).with_player(next),
                            )
                        } else {
                            None
                        },
                        None => None,
                    },
                }
            },
            None => None,
        }
    }

    /// The state after playing `moves` in order, if every one is legal.
    pub open spec fn replay(self, moves: Seq<Direction>) -> Option<Board>
        decreases moves.len(),
    {
        if moves.len() == 0 {
            Some(self)
        } else {
            match self.moved(moves[0]) {
                Some(next) => next.replay(moves.drop_first()),
                None => None,
            }
        }
    }

    /// Every target carries a crate.
    pub open spec fn solved(self) -> bool {
        forall|i: int| 0 <= i < self.targets.len() ==> self.at(#[trigger] self.targets[i]) == Tile::Crate
    }

    /// The crate positions among the first `n` tiles, in row-major order.
    pub open spec fn crates_upto(self, n: int) -> Seq<Position>
        decreases n,
    {
        if n <= 0 {
            Seq::empty()
        } else if self.tiles[n - 1] == Tile::Crate {
            self.crates_upto(n - 1).push(self.position(n - 1))
        } else {
            self.crates_upto(n - 1)
        }
    }

    /// All crate positions in row-major order.
    pub open spec fn crates(self) -> Seq<Position> {
        self.crates_upto(self.tiles.len() as int)
    }

    /// Whether `pos` is one of the targets.
    pub open spec fn target_at(self, pos: Position) -> bool {
        self.targets.contains(pos)
    }

    /// Whether the neighbour of `pos` in direction `dir` is a wall inside
    /// the grid.
    pub open spec fn wall_beside(self, pos: Position, dir: Direction) -> bool {
        match step(dir, pos) {
            Some(next) => self.wall_at(next),
            None => false,
        }
    }

    /// Two perpendicular neighbours of `pos` are walls.
    pub open spec fn cornered(self, pos: Position) -> bool {
        (self.wall_beside(pos, Direction::Up) || self.wall_beside(pos, Direction::Down)) && (
        self.wall_beside(pos, Direction::Left) || self.wall_beside(pos, Direction::Right))
    }

    /// No crate off the targets stands in a corner of walls.
    pub open spec fn free_of_corners(self) -> bool {
        forall|pos: Position|
            #[trigger] self.crate_at(pos) && !self.target_at(pos) ==> !self.cornered(pos)
    }

    /// The number of targets among the first `n` that carry a crate.
    pub open spec fn covered_upto(self, n: int) -> nat
        decreases n,
    {
        if n <= 0 {
            0
        } else {
            self.covered_upto(n - 1) + if self.at(self.targets[n - 1]) == Tile::Crate {
                1nat
            } else {
                0nat
            }
        }
    }

    /// The number of targets that carry a crate.
    pub open spec fn covered(self) -> nat {
        self.covered_upto(self.targets.len() as int)
    }
}

/// Inside a well-shaped grid a valid row-major index names a position inside
/// the grid, whose index it is.
pub proof fn lemma_position(board: Board, i: int)
    requires
        board.shaped(),
        0 <= i < board.tiles.len(),
    ensures
        board.in_bounds(board.position(i)),
        board.index(board.position(i)) == i,
        board.cols > 0,
{
    let rows = board.rows as int;
    let cols = board.cols as int;
    assert(cols > 0) by (nonlinear_arith)
        requires
            0 <= i < rows * cols,
            0 <= cols,
    ;
    lemma_fundamental_div_mod(i, cols);
    let q = i / cols;
    let r = i % cols;
    assert(0 <= r < cols);
    assert(0 <= q < rows) by (nonlinear_arith)
        requires
            i == cols * q + r,
            0 <= r < cols,
            0 <= i < rows * cols,
            0 < cols,
    ;
    assert(q * cols + r == i) by (nonlinear_arith)
        requires
            i == cols * q + r,
    ;
}

/// Every listed crate position holds a crate inside the grid.
pub proof fn lemma_crates_listed(board: Board, n: int, k: int)
    requires
        board.shaped(),
        0 <= n <= board.tiles.len(),
        0 <= k < board.crates_upto(n).len(),
    ensures
        board.crate_at(board.crates_upto(n)[k]),
    decreases n,
{
    if n > 0 {
        let rest = board.crates_upto(n - 1);
        if board.tiles[n - 1] == Tile::Crate && k == rest.len() {
            lemma_position(board, n - 1);
        } else {
            lemma_crates_listed(board, n - 1, k);
        }
    }
}

/// Every crate inside the grid is listed.
pub proof fn lemma_crates_complete(board: Board, n: int, pos: Position)
    requires
        board.shaped(),
        0 <= n <= board.tiles.len(),
        board.crate_at(pos),
        board.index(pos) < n,
    ensures
        board.crates_upto(n).contains(pos),
    decreases n,
{
    lemma_index(board, pos);
    if n > 0 {
        let rest = board.crates_upto(n - 1);
        if board.index(pos) == n - 1 {
            assert(board.crates_upto(n) == rest.push(pos));
            assert(rest.push(pos)[rest.len() as int] == pos);
        } else {
            lemma_crates_complete(board, n - 1, pos);
            let k = choose|k: int| 0 <= k < rest.len() && rest[k] == pos;
            if board.tiles[n - 1] == Tile::Crate {
                assert(board.crates_upto(n)[k] == pos);
            }
        }
    }
}

/// Inside a well-shaped grid the row-major index of a position is a valid
/// index, and names that position alone.
pub proof fn lemma_index(board: Board, pos: Position)
    requires
        board.shaped(),
        board.in_bounds(pos),
    ensures
        0 <= board.index(pos) < board.tiles.len(),
        board.position(board.index(pos)) == pos,
{
    let r = pos.0 as int;
    let c = pos.1 as int;
    let rows = board.rows as int;
    let cols = board.cols as int;
    assert(r * cols + c < rows * cols) by (nonlinear_arith)
        requires
            0 <= r < rows,
            0 <= c < cols,
    ;
    assert(r * cols >= 0) by (nonlinear_arith)
        requires
            0 <= r,
            0 <= cols,
    ;
    lemma_fundamental_div_mod_converse(r * cols + c, cols, r, c);
}

/// Two positions inside the grid with one row-major index are equal.
pub proof fn lemma_index_injective(board: Board, a: Position, b: Position)
    requires
        board.shaped(),
        board.in_bounds(a),
        board.in_bounds(b),
        board.index(a) == board.index(b),
    ensures
        a == b,
{
    lemma_index(board, a);
    lemma_index(board, b);
}

/// Changing one tile changes what is read at that position only, and keeps
/// the shape.
pub proof fn lemma_with_tile(board: Board, pos: Position, tile: Tile, other: Position)
    requires
        board.shaped(),
        board.in_bounds(pos),
        board.in_bounds(other),
    ensures
        board.with_tile(pos, tile).shaped(),
        board.with_tile(pos, tile).in_bounds(other),
        board.with_tile(pos, tile).at(other) == if other == pos {
            tile
        } else {
            board.at(other)
        },
{
    lemma_index(board, pos);
    lemma_index(board, other);
    if other != pos {
        if board.index(pos) == board.index(other) {
            lemma_index_injective(board, pos, other);
        }
    }
}

/// A puzzle state: grid, player and targets.
#[derive(Debug)]
pub struct Puzzle {
    rows: usize,
    cols: usize,
    tiles: Vec<Tile>,
    player: Position,
    targets: Vec<Position>,
}

impl View for Puzzle {
    type V = Board;

    closed spec fn view(&self) -> Board {
        Board {
            rows: self.rows,
            cols: self.cols,
            tiles: self.tiles@,
            player: self.player,
            targets: self.targets@,
        }
    }
}

/// `sokoban::State::new` followed by `sokoban::State::move_player`: on a valid
/// state the engine applies the move rule, and refuses exactly the moves that
/// the rule refuses.
#[verifier::external_body]
fn engine_move(puzzle: &Puzzle, direction: Direction) -> (next: Option<Puzzle>)
    requires
        puzzle@.wf(),
    ensures
        next.is_some() == puzzle@.moved(direction).is_some(),
        next.is_some() ==> next.unwrap()@ == puzzle@.moved(direction).unwrap(),
{
    let tiles = puzzle.tiles.clone();
    let targets = puzzle.targets.clone();
    let state = State::new(tiles, puzzle.player, targets, puzzle.rows, puzzle.cols).ok()?;
    let state = state.move_player(direction).ok()?;
    let tiles = state.iter().map(|item| item.tile()).collect();
    let (player, targets) = (state.player(), state.targets().to_vec());
    Some(Puzzle { rows: state.rows(), cols: state.cols(), tiles, player, targets })
}

/// A legal move keeps a valid state valid.
pub proof fn lemma_moved_wf(board: Board, dir: Direction)
    requires
        board.wf(),
        board.moved(dir).is_some(),
    ensures
        board.moved(dir).unwrap().wf(),
        board.moved(dir).unwrap().rows == board.rows,
        board.moved(dir).unwrap().cols == board.cols,
        board.moved(dir).unwrap().targets == board.targets,
{
    let next = step(dir, board.player).unwrap();
    let after = board.moved(dir).unwrap();
    lemma_index(board, next);
    if board.at(next) == Tile::Crate {
        let beyond = step(dir, next).unwrap();
        let mid = board.with_tile(next, Tile::Floor);
        lemma_with_tile(board, next, Tile::Floor, next);
        lemma_with_tile(board, next, Tile::Floor, beyond);
        lemma_with_tile(mid, beyond, Tile::Crate, next);
        assert(after.floor_at(after.player));
        assert forall|i: int| 0 <= i < after.targets.len() implies after.in_bounds(
            #[trigger] after.targets[i],
        ) && after.at(after.targets[i]) != Tile::Wall by {
            let t = board.targets[i];
            lemma_with_tile(board, next, Tile::Floor, t);
            lemma_with_tile(mid, beyond, Tile::Crate, t);
        }
    }
}

/// A legal sequence of moves keeps a valid state valid.
pub proof fn lemma_replay_wf(board: Board, moves: Seq<Direction>)
    requires
        board.wf(),
        board.replay(moves).is_some(),
    ensures
        board.replay(moves).unwrap().wf(),
        board.replay(moves).unwrap().rows == board.rows,
        board.replay(moves).unwrap().cols == board.cols,
        board.replay(moves).unwrap().targets == board.targets,
    decreases moves.len(),
{
    if moves.len() > 0 {
        lemma_moved_wf(board, moves[0]);
        lemma_replay_wf(board.moved(moves[0]).unwrap(), moves.drop_first());
    }
}

/// Replaying a concatenation is replaying the first part and then the second
/// from where the first ended.
pub proof fn lemma_replay_concat(board: Board, first: Seq<Direction>, second: Seq<Direction>)
    ensures
        board.replay(first + second) == match board.replay(first) {
            Some(mid) => mid.replay(second),
            None => None,
        },
    decreases first.len(),
{
    if first.len() == 0 {
        assert(first + second =~= second);
    } else {
        assert((first + second)[0] == first[0]);
        assert((first + second).drop_first() =~= first.drop_first() + second);
        match board.moved(first[0]) {
            Some(next) => lemma_replay_concat(next, first.drop_first(), second),
            None => {},
        }
    }
}

/// Replaying one more move is moving once from where the replay ended.
pub proof fn lemma_replay_push(board: Board, moves: Seq<Direction>, last: Direction)
    ensures
        board.replay(moves.push(last)) == match board.replay(moves) {
            Some(mid) => mid.moved(last),
            None => None,
        },
{
    lemma_replay_concat(board, moves, seq![last]);
    assert(moves + seq![last] =~= moves.push(last));
    match board.replay(moves) {
        Some(mid) => {
            reveal_with_fuel(Board::replay, 2);
            assert(seq![last].drop_first() =~= Seq::<Direction>::empty());
            assert(seq![last][0] == last);
        },
        None => {},
    }
}

impl Clone for Puzzle {
    fn clone(&self) -> (copy: Puzzle)
        ensures
            copy@ == self@,
    {
        Puzzle {
            rows: self.rows,
            cols: self.cols,
            tiles: copy_tiles(&self.tiles),
            player: self.player,
            targets: copy_positions(&self.targets),
        }
    }
}

impl Puzzle {
    /// Builds a state from its raw parts, the tiles in row-major order.
    /// Refused unless the parts form a valid state.
    pub fn new(
        tiles: Vec<Tile>,
        player: Position,
        targets: Vec<Position>,
        rows: usize,
        cols: usize,
    ) -> (made: Option<Puzzle>)
        ensures
            made.is_some() == (Board { rows, cols, tiles: tiles@, player, targets: targets@ }).wf(),
            made.is_some() ==> made.unwrap()@ == (Board {
                rows,
                cols,
                tiles: tiles@,
                player,
                targets: targets@,
            }),
    {
        let ghost board = Board { rows, cols, tiles: tiles@, player, targets: targets@ };
        let size = match rows.checked_mul(cols) {
            Some(size) => size,
            None => {
                return None;
            },
        };
        if tiles.len() != size {
            return None;
        }
        let puzzle = Puzzle { rows, cols, tiles, player, targets };
        assert(puzzle@ == board);
        if !puzzle.is_floor(player) {
            return None;
        }
        let mut i: usize = 0;
        while i < puzzle.targets.len()
            invariant
                puzzle@ == board,
                board == (Board { rows, cols, tiles: tiles@, player, targets: targets@ }),
                board.shaped(),
                0 <= i <= board.targets.len(),
                forall|j: int|
                    0 <= j < i ==> board.in_bounds(#[trigger] board.targets[j]) && board.at(
                        board.targets[j],
                    ) != Tile::Wall,
            decreases puzzle.targets.len() - i,
        {
            let target = puzzle.targets[i];
            assert(target == board.targets[i as int]);
            if !puzzle.contains(target) {
                return None;
            }
            match puzzle.tile(target) {
                Tile::Wall => {
                    return None;
                },
                _ => {},
            }
            i += 1;
        }
        Some(puzzle)
    }

    pub fn rows(&self) -> (rows: usize)
        ensures
            rows == self@.rows,
    {
        self.rows
    }

    pub fn cols(&self) -> (cols: usize)
        ensures
            cols == self@.cols,
    {
        self.cols
    }

    pub fn player(&self) -> (player: Position)
        ensures
            player == self@.player,
    {
        self.player
    }

    /// The tiles in row-major order.
    pub fn tiles(&self) -> (tiles: &Vec<Tile>)
        ensures
            tiles@ == self@.tiles,
    {
        &self.tiles
    }

    pub fn targets(&self) -> (targets: &Vec<Position>)
        ensures
            targets@ == self@.targets,
    {
        &self.targets
    }

    /// Whether `pos` lies inside the grid.
    pub fn contains(&self, pos: Position) -> (inside: bool)
        ensures
            inside == self@.in_bounds(pos),
    {
        pos.0 < self.rows && pos.1 < self.cols
    }

    /// The tile at a position inside the grid.
    pub fn tile(&self, pos: Position) -> (tile: Tile)
        requires
            self@.shaped(),
            self@.in_bounds(pos),
        ensures
            tile == self@.at(pos),
    {
        proof {
            lemma_index(self@, pos);
            assert(self@.cols == self.cols && self@.tiles == self.tiles@);
            assert(self.tiles@.len() == self.tiles.len());
            assert(pos.0 * self.cols >= 0) by (nonlinear_arith);
        }
        self.tiles[pos.0 * self.cols + pos.1]
    }

    /// The row-major index of a position inside the grid.
    pub fn offset(&self, pos: Position) -> (index: usize)
        requires
            self@.shaped(),
            self@.in_bounds(pos),
        ensures
            index == self@.index(pos),
            index < self@.tiles.len(),
    {
        proof {
            lemma_index(self@, pos);
            assert(self@.cols == self.cols && self@.tiles == self.tiles@);
            assert(self.tiles@.len() == self.tiles.len());
            assert(pos.0 * self.cols >= 0) by (nonlinear_arith);
        }
        pos.0 * self.cols + pos.1
    }

    /// The number of tiles.
    pub fn size(&self) -> (size: usize)
        ensures
            size == self@.tiles.len(),
    {
        self.tiles.len()
    }

    /// Whether `pos` lies inside the grid on a floor tile.
    pub fn is_floor(&self, pos: Position) -> (floor: bool)
        requires
            self@.shaped(),
        ensures
            floor == self@.floor_at(pos),
    {
        if !self.contains(pos) {
            return false;
        }
        match self.tile(pos) {
            Tile::Floor => true,
            _ => false,
        }
    }

    /// Whether `pos` lies inside the grid on a crate.
    pub fn is_crate(&self, pos: Position) -> (found: bool)
        requires
            self@.shaped(),
        ensures
            found == self@.crate_at(pos),
    {
        if !self.contains(pos) {
            return false;
        }
        match self.tile(pos) {
            Tile::Crate => true,
            _ => false,
        }
    }

    /// Whether `pos` lies inside the grid on a wall.
    pub fn is_wall(&self, pos: Position) -> (wall: bool)
        requires
            self@.shaped(),
        ensures
            wall == self@.wall_at(pos),
    {
        if !self.contains(pos) {
            return false;
        }
        match self.tile(pos) {
            Tile::Wall => true,
            _ => false,
        }
    }

    /// A copy of the state with one tile replaced. The result need not be a
    /// valid state: the search routines use it to try out crate positions.
    pub(crate) fn with_tile(&self, pos: Position, tile: Tile) -> (changed: Puzzle)
        requires
            self@.shaped(),
            self@.in_bounds(pos),
        ensures
            changed@ == self@.with_tile(pos, tile),
            changed@.shaped(),
    {
        proof {
            lemma_index(self@, pos);
            assert(self@.cols == self.cols && self@.tiles == self.tiles@);
            assert(self.tiles@.len() == self.tiles.len());
            assert(pos.0 * self.cols >= 0) by (nonlinear_arith);
        }
        let mut tiles = copy_tiles(&self.tiles);
        tiles.set(pos.0 * self.cols + pos.1, tile);
        assert(tiles@ =~= self.tiles@.update(self@.index(pos), tile));
        Puzzle {
            rows: self.rows,
            cols: self.cols,
            tiles,
            player: self.player,
            targets: copy_positions(&self.targets),
        }
    }

    /// Plays one move. An illegal move hands the unchanged state back.
    pub fn move_player(self, direction: Direction) -> (outcome: Result<Puzzle, Puzzle>)
        requires
            self@.wf(),
        ensures
            match self@.moved(direction) {
                Some(next) => outcome.is_ok() && outcome.unwrap()@ == next && next.wf(),
                None => outcome.is_err() && outcome.unwrap_err()@ == self@,
            },
    {
        proof {
            if self@.moved(direction).is_some() {
                lemma_moved_wf(self@, direction);
            }
        }
        match engine_move(&self, direction) {
            Some(next) => Ok(next),
            None => Err(self),
        }
    }

    /// Plays `moves` in order; `None` when one of them is illegal.
    pub fn replay(&self, moves: &Vec<Direction>) -> (outcome: Option<Puzzle>)
        requires
            self@.wf(),
        ensures
            outcome.is_some() == self@.replay(moves@).is_some(),
            outcome.is_some() ==> outcome.unwrap()@ == self@.replay(moves@).unwrap()
                && outcome.unwrap()@.wf(),
    {
        let mut current = self.clone();
        let mut i: usize = 0;
        while i < moves.len()
            invariant
                0 <= i <= moves.len(),
                current@.wf(),
                self@.replay(moves@.take(i as int)) == Some(current@),
            decreases moves.len() - i,
        {
            proof {
                lemma_replay_push(self@, moves@.take(i as int), moves@[i as int]);
                assert(moves@.take(i as int).push(moves@[i as int]) =~= moves@.take(i + 1));
                lemma_replay_concat(self@, moves@.take(i + 1), moves@.skip(i + 1));
                assert(moves@.take(i + 1) + moves@.skip(i + 1) =~= moves@);
            }
            match current.move_player(moves[i]) {
                Ok(next) => {
                    current = next;
                },
                Err(_) => {
                    return None;
                },
            }
            i += 1;
        }
        assert(moves@.take(i as int) =~= moves@);
        Some(current)
    }

    /// Whether `pos` is one of the targets.
    pub fn is_target(&self, pos: Position) -> (found: bool)
        ensures
            found == self@.target_at(pos),
    {
        let mut i: usize = 0;
        while i < self.targets.len()
            invariant
                0 <= i <= self.targets.len(),
                forall|j: int| 0 <= j < i ==> self.targets@[j] != pos,
            decreases self.targets.len() - i,
        {
            if same_position(self.targets[i], pos) {
                return true;
            }
            i += 1;
        }
        false
    }

    /// Whether the neighbour of `pos` in direction `dir` is a wall inside
    /// the grid.
    pub fn wall_beside(&self, pos: Position, dir: Direction) -> (wall: bool)
        requires
            self@.shaped(),
        ensures
            wall == self@.wall_beside(pos, dir),
    {
        match dir.go(pos) {
            Some(next) => self.is_wall(next),
            None => false,
        }
    }

    /// The number of targets that carry a crate.
    pub fn covered_targets(&self) -> (count: usize)
        requires
            self@.wf(),
        ensures
            count == self@.covered(),
            count <= self@.targets.len(),
    {
        let mut count: usize = 0;
        let mut i: usize = 0;
        while i < self.targets.len()
            invariant
                self@.wf(),
                0 <= i <= self.targets.len(),
                count == self@.covered_upto(i as int),
                count <= i,
            decreases self.targets.len() - i,
        {
            let target = self.targets[i];
            assert(target == self@.targets[i as int]);
            if self.is_crate(target) {
                count += 1;
            }
            i += 1;
        }
        count
    }

    /// Whether two states are the same: grid, player and targets.
    pub fn same_state(&self, other: &Puzzle) -> (same: bool)
        ensures
            same == (self@ == other@),
    {
        if self.rows != other.rows || self.cols != other.cols || !same_position(
            self.player,
            other.player,
        ) || self.tiles.len() != other.tiles.len() || self.targets.len() != other.targets.len() {
            return false;
        }
        let mut i: usize = 0;
        while i < self.tiles.len()
            invariant
                self.tiles@.len() == other.tiles@.len(),
                0 <= i <= self.tiles.len(),
                forall|j: int| 0 <= j < i ==> self.tiles@[j] == other.tiles@[j],
            decreases self.tiles.len() - i,
        {
            let same = match (self.tiles[i], other.tiles[i]) {
                (Tile::Crate, Tile::Crate) => true,
                (Tile::Floor, Tile::Floor) => true,
                (Tile::Wall, Tile::Wall) => true,
                _ => false,
            };
            if !same {
                return false;
            }
            i += 1;
        }
        let mut k: usize = 0;
        while k < self.targets.len()
            invariant
                self.targets@.len() == other.targets@.len(),
                0 <= k <= self.targets.len(),
                forall|j: int| 0 <= j < k ==> self.targets@[j] == other.targets@[j],
            decreases self.targets.len() - k,
        {
            if !same_position(self.targets[k], other.targets[k]) {
                return false;
            }
            k += 1;
        }
        assert(self.tiles@ =~= other.tiles@);
        assert(self.targets@ =~= other.targets@);
        true
    }

    /// Whether every target carries a crate.
    pub fn in_solution_state(&self) -> (solved: bool)
        requires
            self@.wf(),
        ensures
            solved == self@.solved(),
    {
        let mut i: usize = 0;
        while i < self.targets.len()
            invariant
                self@.wf(),
                0 <= i <= self.targets.len(),
                forall|j: int| 0 <= j < i ==> self@.at(#[trigger] self@.targets[j]) == Tile::Crate,
            decreases self.targets.len() - i,
        {
            let target = self.targets[i];
            assert(target == self@.targets[i as int]);
            if !self.is_crate(target) {
                return false;
            }
            i += 1;
        }
        true
    }
}

/// All crate positions of the puzzle, in row-major order.
pub fn find_crates(puzzle: &Puzzle) -> (crates: Vec<Position>)
    requires
        puzzle@.shaped(),
    ensures
        crates@ == puzzle@.crates(),
        forall|k: int| 0 <= k < crates@.len() ==> puzzle@.crate_at(#[trigger] crates@[k]),
        forall|pos: Position| puzzle@.crate_at(pos) ==> crates@.contains(pos),
{
    let mut crates: Vec<Position> = Vec::new();
    let mut i: usize = 0;
    while i < puzzle.tiles.len()
        invariant
            puzzle@.shaped(),
            0 <= i <= puzzle.tiles.len(),
            crates@ == puzzle@.crates_upto(i as int),
        decreases puzzle.tiles.len() - i,
    {
        match puzzle.tiles[i] {
            Tile::Crate => {
                proof {
                    lemma_position(puzzle@, i as int);
                }
                crates.push((i / puzzle.cols, i % puzzle.cols));
            },
            _ => {},
        }
        i += 1;
    }
    proof {
        let board = puzzle@;
        assert forall|k: int| 0 <= k < crates@.len() implies board.crate_at(
            #[trigger] crates@[k],
        ) by {
            lemma_crates_listed(board, board.tiles.len() as int, k);
        }
        assert forall|pos: Position| board.crate_at(pos) implies crates@.contains(pos) by {
            lemma_index(board, pos);
            lemma_crates_complete(board, board.tiles.len() as int, pos);
        }
    }
    crates
}

/// Whether two perpendicular neighbours of `pos` are walls: above and left,
/// above and right, below and left, or below and right.
pub fn corner_blocked(pos: Position, puzzle: &Puzzle) -> (blocked: bool)
    requires
        puzzle@.shaped(),
    ensures
        blocked == puzzle@.cornered(pos),
{
    (puzzle.wall_beside(pos, Direction::Up) || puzzle.wall_beside(pos, Direction::Down)) && (
    puzzle.wall_beside(pos, Direction::Left) || puzzle.wall_beside(pos, Direction::Right))
}

} // verus!
