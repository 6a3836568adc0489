//! Shortest-walk search for the player: a breadth-first flood fill with
//! back-pointers, crates and walls being impassable.

use vstd::prelude::*;
use std::collections::VecDeque;
use sokoban::Direction;
use crate::grid::{opposite, rank, same_position, spec_opposite, step, Position};
use crate::puzzle::{lemma_index, lemma_index_injective, Board, Puzzle};

verus! {

/// `moves` leads from `from` to `to` over floor tiles only.
pub open spec fn walk(board: Board, from: Position, moves: Seq<Direction>, to: Position) -> bool
    decreases moves.len(),
{
    if moves.len() == 0 {
        from == to
    } else {
        match step(moves[0], from) {
            Some(next) => board.floor_at(next) && walk(board, next, moves.drop_first(), to),
            None => false,
        }
    }
}

/// Some walk leads from `from` to `to`.
pub open spec fn reachable(board: Board, from: Position, to: Position) -> bool {
    exists|moves: Seq<Direction>| walk(board, from, moves, to)
}

/// Both ends are floor tiles inside the grid and a walk joins them.
pub open spec fn connected(board: Board, from: Position, to: Position) -> bool {
    board.floor_at(from) && board.floor_at(to) && reachable(board, from, to)
}

/// Two boards with the same grid.
pub open spec fn same_grid(a: Board, b: Board) -> bool {
    a.rows == b.rows && a.cols == b.cols && a.tiles == b.tiles
}

/// A walk depends on the grid alone.
pub proof fn lemma_walk_grid(a: Board, b: Board, from: Position, moves: Seq<Direction>, to: Position)
    requires
        same_grid(a, b),
    ensures
        walk(a, from, moves, to) == walk(b, from, moves, to),
    decreases moves.len(),
{
    if moves.len() > 0 {
        match step(moves[0], from) {
            Some(next) => lemma_walk_grid(a, b, next, moves.drop_first(), to),
            None => {},
        }
    }
}

/// Whether two cells are connected depends on the grid alone.
pub proof fn lemma_connected_grid(a: Board, b: Board, from: Position, to: Position)
    requires
        same_grid(a, b),
    ensures
        connected(a, from, to) == connected(b, from, to),
{
    if reachable(a, from, to) {
        let w = choose|w: Seq<Direction>| walk(a, from, w, to);
        lemma_walk_grid(a, b, from, w, to);
    }
    if reachable(b, from, to) {
        let w = choose|w: Seq<Direction>| walk(b, from, w, to);
        lemma_walk_grid(a, b, from, w, to);
    }
}

/// A walk can be extended by one step onto a floor tile.
pub proof fn lemma_walk_push(
    board: Board,
    from: Position,
    moves: Seq<Direction>,
    mid: Position,
    dir: Direction,
    to: Position,
)
    requires
        walk(board, from, moves, mid),
        step(dir, mid) == Some(to),
        board.floor_at(to),
    ensures
        walk(board, from, moves.push(dir), to),
    decreases moves.len(),
{
    let longer = moves.push(dir);
    if moves.len() == 0 {
        reveal_with_fuel(walk, 2);
        assert(longer[0] == dir);
        assert(longer.drop_first() =~= Seq::<Direction>::empty());
    } else {
        let next = step(moves[0], from).unwrap();
        lemma_walk_push(board, next, moves.drop_first(), mid, dir, to);
        assert(longer[0] == moves[0]);
        assert(longer.drop_first() =~= moves.drop_first().push(dir));
    }
}

/// A walk of at least one move ends with a step onto a floor tile, from the
/// end of the walk without that step.
pub proof fn lemma_walk_last(board: Board, from: Position, moves: Seq<Direction>, to: Position) -> (mid:
    Position)
    requires
        walk(board, from, moves, to),
        moves.len() > 0,
    ensures
        walk(board, from, moves.drop_last(), mid),
        step(moves.last(), mid) == Some(to),
        board.floor_at(to),
    decreases moves.len(),
{
    let next = step(moves[0], from).unwrap();
    if moves.len() == 1 {
        assert(walk(board, next, moves.drop_first(), to));
        assert(moves.drop_first().len() == 0);
        assert(next == to);
        assert(moves.last() == moves[0]);
        assert(moves.drop_last() =~= Seq::<Direction>::empty());
        from
    } else {
        let mid = lemma_walk_last(board, next, moves.drop_first(), to);
        assert(moves.drop_last().drop_first() =~= moves.drop_first().drop_last());
        assert(moves.drop_first().last() == moves.last());
        assert(moves.drop_last()[0] == moves[0]);
        mid
    }
}

/// A walk from a floor tile ends on a floor tile.
pub proof fn lemma_walk_ends_on_floor(board: Board, from: Position, moves: Seq<Direction>, to: Position)
    requires
        walk(board, from, moves, to),
        board.floor_at(from),
    ensures
        board.floor_at(to),
{
    if moves.len() > 0 {
        let mid = lemma_walk_last(board, from, moves, to);
    }
}

/// Playing a walk from the player's position moves the player to its end and
/// changes nothing else.
pub proof fn lemma_walk_replay(grid: Board, board: Board, moves: Seq<Direction>, to: Position)
    requires
        board.wf(),
        same_grid(grid, board),
        walk(grid, board.player, moves, to),
    ensures
        board.replay(moves) == Some(board.with_player(to)),
    decreases moves.len(),
{
    if moves.len() == 0 {
        assert(board.with_player(to) == board);
    } else {
        let next = step(moves[0], board.player).unwrap();
        let after = board.with_player(next);
        assert(board.floor_at(next));
        assert(board.moved(moves[0]) == Some(after));
        lemma_walk_replay(grid, after, moves.drop_first(), to);
        assert(after.with_player(to) == board.with_player(to));
    }
}

/// `a` comes before `b`: at the first place where they differ, `a` has the
/// direction that is tried earlier.
pub open spec fn earlier(a: Seq<Direction>, b: Seq<Direction>) -> bool {
    exists|i: int|
        0 <= i < a.len() && i < b.len() && #[trigger] a.take(i) == b.take(i) && rank(a[i]) < rank(
            b[i],
        )
}

/// `a` is `b` or comes before it.
pub open spec fn not_later(a: Seq<Direction>, b: Seq<Direction>) -> bool {
    a == b || earlier(a, b)
}

/// What comes before stays before, whatever is appended.
pub proof fn lemma_earlier_push(a: Seq<Direction>, b: Seq<Direction>, x: Direction, y: Direction)
    requires
        earlier(a, b),
    ensures
        earlier(a.push(x), b.push(y)),
{
    let i = choose|i: int|
        0 <= i < a.len() && i < b.len() && #[trigger] a.take(i) == b.take(i) && rank(a[i]) < rank(
            b[i],
        );
    assert(a.push(x).take(i) =~= a.take(i));
    assert(b.push(y).take(i) =~= b.take(i));
}

/// Of two lists that differ in the last move only, the one with the
/// direction tried earlier comes before.
pub proof fn lemma_earlier_last(a: Seq<Direction>, x: Direction, y: Direction)
    requires
        rank(x) < rank(y),
    ensures
        earlier(a.push(x), a.push(y)),
{
    let i = a.len() as int;
    assert(a.push(x).take(i) =~= a.push(y).take(i));
}

/// What comes before a list comes before every list that is not before
/// that one.
pub proof fn lemma_earlier_chain(a: Seq<Direction>, b: Seq<Direction>, c: Seq<Direction>)
    requires
        earlier(a, b),
        not_later(b, c),
    ensures
        earlier(a, c),
{
    if b != c {
        let i = choose|i: int|
            0 <= i < a.len() && i < b.len() && #[trigger] a.take(i) == b.take(i) && rank(a[i])
                < rank(b[i]);
        let j = choose|j: int|
            0 <= j < b.len() && j < c.len() && #[trigger] b.take(j) == c.take(j) && rank(b[j])
                < rank(c[j]);
        if i <= j {
            assert(b.take(j).take(i) =~= b.take(i));
            assert(c.take(j).take(i) =~= c.take(i));
            if i < j {
                assert(b.take(j)[i] == b[i]);
                assert(c.take(j)[i] == c[i]);
            }
            assert(a.take(i) == c.take(i));
        } else {
            assert(a.take(i).take(j) =~= a.take(j));
            assert(b.take(i).take(j) =~= b.take(j));
            assert(a.take(i)[j] == a[j]);
            assert(b.take(i)[j] == b[j]);
            assert(a.take(j) == c.take(j));
        }
    }
}

/// Of two different lists only one comes before the other: the walk that
/// comes before every other walk of its length is the only such walk.
pub proof fn law_least_walk_is_unique(a: Seq<Direction>, b: Seq<Direction>)
    requires
        not_later(a, b),
        not_later(b, a),
    ensures
        a == b,
{
    if a != b {
        let i = choose|i: int|
            0 <= i < a.len() && i < b.len() && #[trigger] a.take(i) == b.take(i) && rank(a[i])
                < rank(b[i]);
        let j = choose|j: int|
            0 <= j < b.len() && j < a.len() && #[trigger] b.take(j) == a.take(j) && rank(b[j])
                < rank(a[j]);
        if i < j {
            assert(b.take(j)[i] == b[i]);
            assert(a.take(j)[i] == a[i]);
        } else if j < i {
            assert(a.take(i)[j] == a[j]);
            assert(b.take(i)[j] == b[j]);
        }
    }
}

/// `moves` is a walk from `from` to `to`, no longer than any other, and
/// before every other of its length.
pub open spec fn is_least_walk(
    board: Board,
    from: Position,
    moves: Seq<Direction>,
    to: Position,
) -> bool {
    &&& walk(board, from, moves, to)
    &&& forall|other: Seq<Direction>| #[trigger]
        walk(board, from, other, to) ==> moves.len() <= other.len() && (other.len()
            == moves.len() ==> not_later(moves, other))
}

/// The least walk from `from` to `to`: the shortest, and among the shortest
/// the one that takes the earlier direction where they part.
pub open spec fn least_walk(board: Board, from: Position, to: Position) -> Seq<Direction> {
    choose|moves: Seq<Direction>| is_least_walk(board, from, moves, to)
}

/// There is one least walk at most.
pub proof fn lemma_least_walk(board: Board, from: Position, moves: Seq<Direction>, to: Position)
    requires
        is_least_walk(board, from, moves, to),
    ensures
        moves == least_walk(board, from, to),
{
    let other = least_walk(board, from, to);
    assert(is_least_walk(board, from, other, to));
    law_least_walk_is_unique(moves, other);
}

/// What the search knows of one cell.
pub enum Mark {
    /// Not reached so far.
    Unseen,
    /// Where the search began.
    Origin,
    /// Reached by a step in this direction.
    Via(Direction),
}

/// The number of cells not reached so far.
pub open spec fn unseen_count(marks: Seq<Mark>) -> nat
    decreases marks.len(),
{
    if marks.len() == 0 {
        0
    } else {
        unseen_count(marks.drop_last()) + if marks.last() == Mark::Unseen {
            1nat
        } else {
            0nat
        }
    }
}

/// Marking an unseen cell lowers the count of unseen cells by one.
pub proof fn lemma_mark_counts(marks: Seq<Mark>, i: int, mark: Mark)
    requires
        0 <= i < marks.len(),
        marks[i] == Mark::Unseen,
        mark != Mark::Unseen,
    ensures
        unseen_count(marks.update(i, mark)) + 1 == unseen_count(marks),
    decreases marks.len(),
{
    let updated = marks.update(i, mark);
    if i == marks.len() - 1 {
        assert(updated.drop_last() =~= marks.drop_last());
    } else {
        assert(updated.drop_last() =~= marks.drop_last().update(i, mark));
        lemma_mark_counts(marks.drop_last(), i, mark);
    }
}

/// A table with every cell unseen.
pub fn blank_marks(size: usize) -> (marks: Vec<Mark>)
    ensures
        marks@.len() == size,
        forall|i: int| 0 <= i < size ==> marks@[i] == Mark::Unseen,
{
    let mut marks: Vec<Mark> = Vec::new();
    let mut i: usize = 0;
    while i < size
        invariant
            0 <= i <= size,
            marks@.len() == i,
            forall|j: int| 0 <= j < i ==> marks@[j] == Mark::Unseen,
        decreases size - i,
    {
        marks.push(Mark::Unseen);
        i += 1;
    }
    marks
}

/// The state of a flood fill: the back-pointer of every cell, and the cells
/// in the order in which they were reached. For the proofs it also keeps, of
/// every cell reached, the number of steps from the origin, the walk that
/// the back-pointers spell, and the place in the queue of the cell that it
/// was reached from.
struct Flood {
    marks: Vec<Mark>,
    queue: Vec<Position>,
    depth: Ghost<Map<Position, nat>>,
    route: Ghost<Map<Position, Seq<Direction>>>,
    parent: Ghost<Map<Position, int>>,
}

impl Flood {
    spec fn mark(self, board: Board, pos: Position) -> Mark {
        self.marks@[board.index(pos)]
    }

    spec fn seen(self, board: Board, pos: Position) -> bool {
        self.mark(board, pos) != Mark::Unseen
    }

    /// The back-pointer of a cell leads one step towards the origin.
    spec fn link(self, board: Board, start: Position, pos: Position) -> bool {
        match self.mark(board, pos) {
            Mark::Unseen => true,
            Mark::Origin => pos == start,
            Mark::Via(dir) => board.floor_at(pos) && match step(spec_opposite(dir), pos) {
                Some(before) => board.in_bounds(before) && step(dir, before) == Some(pos)
                    && self.seen(board, before) && self.depth@[before] + 1 == self.depth@[pos],
                None => false,
            },
        }
    }

    spec fn traced(self, board: Board, start: Position) -> bool {
        &&& board.shaped()
        &&& self.marks@.len() == board.tiles.len()
        &&& board.floor_at(start)
        &&& self.mark(board, start) == Mark::Origin
        &&& self.depth@[start] == 0
        &&& forall|pos: Position| board.in_bounds(pos) ==> #[trigger] self.link(board, start, pos)
        &&& forall|j: int|
            0 <= j < self.queue@.len() ==> board.in_bounds(#[trigger] self.queue@[j]) && self.seen(
                board,
                self.queue@[j],
            )
    }

    /// Nothing is left to do from `pos` in direction `dir`.
    spec fn open_at(self, board: Board, pos: Position, dir: Direction) -> bool {
        match step(dir, pos) {
            Some(next) => board.floor_at(next) ==> self.seen(board, next),
            None => true,
        }
    }

    spec fn expanded(self, board: Board, pos: Position) -> bool {
        &&& self.open_at(board, pos, Direction::Up)
        &&& self.open_at(board, pos, Direction::Down)
        &&& self.open_at(board, pos, Direction::Left)
        &&& self.open_at(board, pos, Direction::Right)
    }

    spec fn queued(self, pos: Position, head: int) -> bool {
        exists|j: int| head <= j < self.queue@.len() && #[trigger] self.queue@[j] == pos
    }

    /// Every cell reached so far is expanded or waits in the queue.
    spec fn settled(self, board: Board, head: int) -> bool {
        forall|pos: Position|
            board.in_bounds(pos) && #[trigger] self.seen(board, pos) ==> self.expanded(board, pos)
                || self.queued(pos, head)
    }

    /// `self` knows all that `earlier` knew.
    spec fn extends(self, earlier: Flood, board: Board) -> bool {
        &&& self.marks@.len() == earlier.marks@.len()
        &&& forall|pos: Position|
            board.in_bounds(pos) && #[trigger] earlier.seen(board, pos) ==> self.mark(board, pos)
                == earlier.mark(board, pos)
        &&& self.queue@.len() >= earlier.queue@.len()
        &&& forall|j: int| 0 <= j < earlier.queue@.len() ==> self.queue@[j] == earlier.queue@[j]
    }

    /// The number of steps from the origin to the cell at `head` of the
    /// queue.
    spec fn level(self, head: int) -> nat {
        self.depth@[self.queue@[head]]
    }

    /// No walk from the origin to a reached cell is shorter than the cell's
    /// chain of back-pointers.
    spec fn best(self, board: Board, start: Position) -> bool {
        forall|x: Position, w: Seq<Direction>|
            board.in_bounds(x) && self.seen(board, x) && #[trigger] walk(board, start, w, x)
                ==> self.depth@[x] <= w.len()
    }

    /// Every cell within the current level of the origin was reached.
    spec fn swept(self, board: Board, start: Position, head: int) -> bool {
        forall|x: Position, w: Seq<Direction>|
            #[trigger] walk(board, start, w, x) && w.len() <= self.level(head) ==> self.seen(
                board,
                x,
            )
    }

    /// The queue holds the cells by level, and no cell beyond the level
    /// after the current one.
    spec fn ordered(self, head: int) -> bool {
        &&& forall|i: int, j: int|
            0 <= i <= j < self.queue@.len() ==> self.depth@[#[trigger] self.queue@[i]]
                <= self.depth@[#[trigger] self.queue@[j]]
        &&& forall|j: int|
            0 <= j < self.queue@.len() ==> self.depth@[#[trigger] self.queue@[j]] <= self.level(
                head,
            ) + 1
    }

    /// Every cell reached stands in the queue.
    spec fn listed(self, board: Board) -> bool {
        forall|pos: Position|
            board.in_bounds(pos) && #[trigger] self.seen(board, pos) ==> self.queued(pos, 0)
    }

    spec fn leveled(self, board: Board, start: Position, head: int) -> bool {
        &&& 0 <= head < self.queue@.len()
        &&& self.best(board, start)
        &&& self.swept(board, start, head)
        &&& self.ordered(head)
        &&& self.listed(board)
    }

    /// The route of a cell is the route of the cell before it and the step
    /// from there.
    spec fn hop(self, board: Board, pos: Position) -> bool {
        match self.mark(board, pos) {
            Mark::Via(dir) => self.route@[pos] == self.route@[step(
                spec_opposite(dir),
                pos,
            ).unwrap()].push(dir),
            _ => true,
        }
    }

    spec fn chained(self, board: Board, start: Position) -> bool {
        &&& self.route@[start] == Seq::<Direction>::empty()
        &&& forall|pos: Position| board.in_bounds(pos) ==> #[trigger] self.hop(board, pos)
    }

    /// A cell of the level after the current one was reached from a cell up
    /// to the head of the queue, and from the head only in a direction
    /// among the first `tried`.
    spec fn child(self, board: Board, head: int, tried: nat, pos: Position) -> bool {
        match self.mark(board, pos) {
            Mark::Via(dir) => 0 <= self.parent@[pos] <= head && self.queue@[self.parent@[pos]]
                == step(spec_opposite(dir), pos).unwrap() && (self.parent@[pos] == head ==> rank(
                dir,
            ) < tried),
            _ => false,
        }
    }

    /// The queue holds the cells of one level in the order of their routes,
    /// and the route of a cell comes before every other walk of its length.
    spec fn sorted(self, board: Board, start: Position, head: int, tried: nat) -> bool {
        &&& forall|i: int, j: int|
            0 <= i < j < self.queue@.len() && self.depth@[#[trigger] self.queue@[i]]
                == self.depth@[#[trigger] self.queue@[j]] ==> earlier(
                self.route@[self.queue@[i]],
                self.route@[self.queue@[j]],
            )
        &&& forall|x: Position, w: Seq<Direction>|
            board.in_bounds(x) && self.seen(board, x) && #[trigger] walk(board, start, w, x)
                && w.len() == self.depth@[x] ==> not_later(self.route@[x], w)
        &&& forall|j: int|
            0 <= j < self.queue@.len() && self.depth@[#[trigger] self.queue@[j]] == self.level(head)
                + 1 ==> self.child(board, head, tried, self.queue@[j])
    }

    /// One more direction tried keeps the order.
    proof fn lemma_tried_more(self, board: Board, start: Position, head: int, tried: nat)
        requires
            self.sorted(board, start, head, tried),
        ensures
            self.sorted(board, start, head, tried + 1),
    {
        assert forall|j: int|
            0 <= j < self.queue@.len() && self.depth@[#[trigger] self.queue@[j]] == self.level(head)
                + 1 implies self.child(board, head, tried + 1, self.queue@[j]) by {
            assert(self.child(board, head, tried, self.queue@[j]));
        }
    }

    /// Marking an unseen floor tile beside the cell at the head of the queue
    /// keeps the order of the routes, and gives the tile the route that
    /// comes before every other walk of its length.
    proof fn lemma_mark_routes(
        self,
        before: Flood,
        board: Board,
        start: Position,
        head: int,
        prev: Position,
        next: Position,
        dir: Direction,
        pushed: bool,
    )
        requires
            before.traced(board, start),
            before.settled(board, head),
            before.leveled(board, start, head),
            before.chained(board, start),
            before.sorted(board, start, head, rank(dir)),
            prev == before.queue@[head],
            step(dir, prev) == Some(next),
            board.floor_at(next),
            !before.seen(board, next),
            self.mark(board, next) == Mark::Via(dir),
            self.traced(board, start),
            forall|pos: Position|
                board.in_bounds(pos) && pos != next ==> #[trigger] self.mark(board, pos)
                    == before.mark(board, pos),
            self.depth@ == before.depth@.insert(next, before.depth@[prev] + 1),
            self.route@ == before.route@.insert(next, before.route@[prev].push(dir)),
            self.parent@ == before.parent@.insert(next, head),
            self.queue@ == if pushed {
                before.queue@.push(next)
            } else {
                before.queue@
            },
        ensures
            self.chained(board, start),
            forall|w: Seq<Direction>| #[trigger]
                walk(board, start, w, next) && w.len() == self.depth@[next] ==> not_later(
                    self.route@[next],
                    w,
                ),
            pushed ==> self.sorted(board, start, head, rank(dir) + 1),
    {
        let level = before.level(head);
        assert(before.seen(board, prev));
        assert(board.in_bounds(prev));
        assert(prev != next);
        assert(next != start);
        assert forall|pos: Position| board.in_bounds(pos) implies #[trigger] self.hop(
            board,
            pos,
        ) by {
            assert(before.hop(board, pos));
            assert(before.link(board, start, pos));
            assert(self.link(board, start, pos));
            if pos != next {
                assert(self.mark(board, pos) == before.mark(board, pos));
            }
        }
        assert forall|w: Seq<Direction>| #[trigger]
            walk(board, start, w, next) && w.len() == self.depth@[next] implies not_later(
            self.route@[next],
            w,
        ) by {
            let q = lemma_walk_last(board, start, w, next);
            let shorter = w.drop_last();
            assert(w =~= shorter.push(w.last()));
            lemma_walk_ends_on_floor(board, start, shorter, q);
            assert(before.seen(board, q));
            assert(before.depth@[q] <= shorter.len());
            if before.expanded(board, q) {
                assert(before.open_at(board, q, w.last()));
            }
            let j = choose|j: int|
                head <= j < before.queue@.len() && #[trigger] before.queue@[j] == q;
            assert(before.depth@[before.queue@[head]] <= before.depth@[before.queue@[j]]);
            assert(not_later(before.route@[q], shorter));
            if j == head {
                assert(w.last() == dir);
                if before.route@[q] != shorter {
                    lemma_earlier_push(before.route@[q], shorter, dir, w.last());
                }
            } else {
                assert(earlier(
                    before.route@[before.queue@[head]],
                    before.route@[before.queue@[j]],
                ));
                lemma_earlier_chain(before.route@[prev], before.route@[q], shorter);
                lemma_earlier_push(before.route@[prev], shorter, dir, w.last());
            }
        }
        if pushed {
            assert forall|x: Position, w: Seq<Direction>|
                board.in_bounds(x) && self.seen(board, x) && #[trigger] walk(board, start, w, x)
                    && w.len() == self.depth@[x] implies not_later(self.route@[x], w) by {
                if x != next {
                    assert(self.mark(board, x) == before.mark(board, x));
                    assert(before.seen(board, x));
                }
            }
            assert(self.queue@[head] == prev);
            assert(self.level(head) == level);
            assert forall|j: int|
                0 <= j < self.queue@.len() && self.depth@[#[trigger] self.queue@[j]] == self.level(
                    head,
                ) + 1 implies self.child(board, head, rank(dir) + 1, self.queue@[j]) by {
                if j < before.queue@.len() {
                    let x = before.queue@[j];
                    assert(self.queue@[j] == x);
                    assert(before.seen(board, x));
                    assert(self.mark(board, x) == before.mark(board, x));
                    assert(before.child(board, head, rank(dir), x));
                    assert(self.queue@[before.parent@[x]] == before.queue@[before.parent@[x]]);
                }
            }
            assert forall|i: int, j: int|
                0 <= i < j < self.queue@.len() && self.depth@[#[trigger] self.queue@[i]]
                    == self.depth@[#[trigger] self.queue@[j]] implies earlier(
                self.route@[self.queue@[i]],
                self.route@[self.queue@[j]],
            ) by {
                let a = before.queue@[i];
                assert(self.queue@[i] == a);
                assert(before.seen(board, a));
                if j < before.queue@.len() {
                    let b = before.queue@[j];
                    assert(self.queue@[j] == b);
                    assert(before.seen(board, b));
                } else {
                    assert(before.depth@[a] == level + 1);
                    assert(before.child(board, head, rank(dir), a));
                    assert(before.hop(board, a));
                    let h = before.parent@[a];
                    assert(before.link(board, start, a));
                    if h == head {
                        match before.mark(board, a) {
                            Mark::Via(d) => {
                                lemma_earlier_last(before.route@[prev], d, dir);
                            },
                            _ => {},
                        }
                    } else {
                        assert(before.depth@[before.queue@[h]] == before.depth@[before.queue@[head]]);
                        assert(earlier(
                            before.route@[before.queue@[h]],
                            before.route@[before.queue@[head]],
                        ));
                        match before.mark(board, a) {
                            Mark::Via(d) => {
                                lemma_earlier_push(
                                    before.route@[before.queue@[h]],
                                    before.route@[prev],
                                    d,
                                    dir,
                                );
                            },
                            _ => {},
                        }
                    }
                }
            }
        }
    }

    /// Once the cell at the head of the queue is expanded, the order of the
    /// routes holds for the cell after it, with no direction tried.
    proof fn lemma_advance_routes(self, board: Board, start: Position, head: int, tried: nat)
        requires
            self.leveled(board, start, head),
            self.sorted(board, start, head, tried),
            head + 1 < self.queue@.len(),
        ensures
            self.sorted(board, start, head + 1, 0),
    {
        assert(self.depth@[self.queue@[head]] <= self.depth@[self.queue@[head + 1]]);
        assert forall|j: int|
            0 <= j < self.queue@.len() && self.depth@[#[trigger] self.queue@[j]] == self.level(
                head + 1,
            ) + 1 implies self.child(board, head + 1, 0, self.queue@[j]) by {
            assert(self.depth@[self.queue@[j]] <= self.level(head) + 1);
            assert(self.child(board, head, tried, self.queue@[j]));
        }
    }

    /// Marking an unseen floor tile beside the cell at the head of the queue
    /// keeps the levels, and gives the tile its least number of steps.
    proof fn lemma_mark_levels(
        self,
        before: Flood,
        board: Board,
        start: Position,
        head: int,
        prev: Position,
        next: Position,
        pushed: bool,
    )
        requires
            before.traced(board, start),
            before.leveled(board, start, head),
            prev == before.queue@[head],
            board.floor_at(next),
            !before.seen(board, next),
            self.seen(board, next),
            forall|pos: Position|
                board.in_bounds(pos) && pos != next ==> #[trigger] self.mark(board, pos)
                    == before.mark(board, pos),
            self.depth@ == before.depth@.insert(next, before.depth@[prev] + 1),
            self.queue@ == if pushed {
                before.queue@.push(next)
            } else {
                before.queue@
            },
        ensures
            forall|w: Seq<Direction>| #[trigger]
                walk(board, start, w, next) ==> self.depth@[next] <= w.len(),
            pushed ==> self.leveled(board, start, head),
    {
        let level = before.level(head);
        assert(before.seen(board, prev));
        assert forall|w: Seq<Direction>| #[trigger] walk(board, start, w, next) implies self.depth@[next]
            <= w.len() by {
            if w.len() <= level {
                assert(before.seen(board, next));
            }
        }
        if pushed {
            assert forall|x: Position, w: Seq<Direction>|
                board.in_bounds(x) && self.seen(board, x) && #[trigger] walk(
                    board,
                    start,
                    w,
                    x,
                ) implies self.depth@[x] <= w.len() by {
                if x != next {
                    assert(self.mark(board, x) == before.mark(board, x));
                    assert(before.seen(board, x));
                }
            }
            assert(self.queue@[head] == prev);
            assert(self.level(head) == level);
            assert forall|x: Position, w: Seq<Direction>| #[trigger]
                walk(board, start, w, x) && w.len() <= self.level(head) implies self.seen(
                board,
                x,
            ) by {
                assert(before.seen(board, x));
                lemma_walk_ends_on_floor(board, start, w, x);
                assert(self.mark(board, x) == before.mark(board, x));
            }
            assert forall|j: int| 0 <= j < self.queue@.len() implies self.depth@[#[trigger] self.queue@[j]]
                <= self.level(head) + 1 by {
                if j < before.queue@.len() {
                    assert(self.queue@[j] == before.queue@[j]);
                    assert(before.seen(board, before.queue@[j]));
                }
            }
            assert forall|i: int, j: int| 0 <= i <= j < self.queue@.len() implies self.depth@[#[trigger] self.queue@[i]]
                <= self.depth@[#[trigger] self.queue@[j]] by {
                assert(self.depth@[self.queue@[i]] <= self.level(head) + 1);
                if j < before.queue@.len() {
                    assert(self.queue@[i] == before.queue@[i]);
                    assert(self.queue@[j] == before.queue@[j]);
                    assert(before.seen(board, before.queue@[i]));
                    assert(before.seen(board, before.queue@[j]));
                }
            }
            assert forall|pos: Position|
                board.in_bounds(pos) && #[trigger] self.seen(board, pos) implies self.queued(
                pos,
                0,
            ) by {
                if pos == next {
                    assert(self.queue@[self.queue@.len() - 1] == pos);
                } else {
                    assert(self.mark(board, pos) == before.mark(board, pos));
                    assert(before.seen(board, pos));
                    let j = choose|j: int|
                        0 <= j < before.queue@.len() && #[trigger] before.queue@[j] == pos;
                    assert(self.queue@[j] == pos);
                }
            }
        }
    }

    /// Once the cell at the head of the queue is expanded, the levels hold
    /// for the cell after it.
    proof fn lemma_advance(self, board: Board, start: Position, head: int)
        requires
            self.traced(board, start),
            self.leveled(board, start, head),
            self.settled(board, head + 1),
            head + 1 < self.queue@.len(),
        ensures
            self.leveled(board, start, head + 1),
    {
        let level = self.level(head);
        let after = self.level(head + 1);
        assert(self.depth@[self.queue@[head]] <= self.depth@[self.queue@[head + 1]]);
        assert(self.depth@[self.queue@[head + 1]] <= level + 1);
        assert forall|x: Position, w: Seq<Direction>| #[trigger]
            walk(board, start, w, x) && w.len() <= after implies self.seen(board, x) by {
            if w.len() > level {
                let y = lemma_walk_last(board, start, w, x);
                lemma_walk_ends_on_floor(board, start, w.drop_last(), y);
                assert(self.seen(board, y));
                assert(self.depth@[y] <= w.drop_last().len());
                if self.queued(y, head + 1) {
                    let j = choose|j: int|
                        head + 1 <= j < self.queue@.len() && #[trigger] self.queue@[j] == y;
                    assert(self.depth@[self.queue@[head + 1]] <= self.depth@[self.queue@[j]]);
                }
                assert(self.expanded(board, y));
                assert(self.open_at(board, y, w.last()));
            }
        }
        assert forall|j: int| 0 <= j < self.queue@.len() implies self.depth@[#[trigger] self.queue@[j]]
            <= self.level(head + 1) + 1 by {
            assert(self.depth@[self.queue@[j]] <= level + 1);
        }
    }

    /// A cell that was reached can be walked to from the origin.
    proof fn lemma_seen_reachable(self, board: Board, start: Position, pos: Position)
        requires
            self.traced(board, start),
            board.in_bounds(pos),
            self.seen(board, pos),
        ensures
            reachable(board, start, pos),
        decreases self.depth@[pos],
    {
        assert(self.link(board, start, pos));
        match self.mark(board, pos) {
            Mark::Via(dir) => {
                let before = step(spec_opposite(dir), pos).unwrap();
                self.lemma_seen_reachable(board, start, before);
                let w = choose|w: Seq<Direction>| walk(board, start, w, before);
                lemma_walk_push(board, start, w, before, dir, pos);
            },
            _ => {
                assert(walk(board, start, Seq::<Direction>::empty(), pos));
            },
        }
    }

    /// Once every reached cell is expanded, every walk from a reached cell
    /// ends in a reached cell.
    proof fn lemma_closed(self, board: Board, from: Position, moves: Seq<Direction>, to: Position)
        requires
            board.shaped(),
            self.settled(board, self.queue@.len() as int),
            board.in_bounds(from),
            self.seen(board, from),
            walk(board, from, moves, to),
        ensures
            self.seen(board, to),
        decreases moves.len(),
    {
        if moves.len() > 0 {
            let next = step(moves[0], from).unwrap();
            assert(self.expanded(board, from));
            assert(self.open_at(board, from, moves[0]));
            self.lemma_closed(board, next, moves.drop_first(), to);
        }
    }

    /// Starts a search at `start`.
    fn begin(puzzle: &Puzzle, start: Position) -> (flood: Flood)
        requires
            puzzle@.shaped(),
            puzzle@.floor_at(start),
        ensures
            flood.traced(puzzle@, start),
            flood.settled(puzzle@, 0),
            flood.leveled(puzzle@, start, 0),
            flood.chained(puzzle@, start),
            flood.sorted(puzzle@, start, 0, 0),
            flood.queue@ == seq![start],
            forall|pos: Position|
                puzzle@.in_bounds(pos) && #[trigger] flood.seen(puzzle@, pos) ==> pos == start,
    {
        let mut marks = blank_marks(puzzle.size());
        let at = puzzle.offset(start);
        marks.set(at, Mark::Origin);
        let mut queue: Vec<Position> = Vec::new();
        queue.push(start);
        let flood = Flood {
            marks,
            queue,
            depth: Ghost(Map::empty().insert(start, 0nat)),
            route: Ghost(Map::empty().insert(start, Seq::<Direction>::empty())),
            parent: Ghost(Map::empty()),
        };
        proof {
            let board = puzzle@;
            assert forall|pos: Position|
                board.in_bounds(pos) && #[trigger] flood.seen(board, pos) implies pos == start by {
                lemma_index(board, pos);
                if board.index(pos) == board.index(start) {
                    lemma_index_injective(board, pos, start);
                }
            }
            assert forall|pos: Position| board.in_bounds(pos) implies #[trigger] flood.link(
                board,
                start,
                pos,
            ) by {
                lemma_index(board, pos);
                if board.index(pos) == board.index(start) {
                    lemma_index_injective(board, pos, start);
                }
            }
            assert(flood.queue@[0] == start);
            assert forall|pos: Position|
                board.in_bounds(pos) && #[trigger] flood.seen(board, pos) implies flood.expanded(
                board,
                pos,
            ) || flood.queued(pos, 0) by {
                assert(flood.queue@[0] == pos);
            }
            assert forall|pos: Position|
                board.in_bounds(pos) && #[trigger] flood.seen(board, pos) implies flood.queued(
                pos,
                0,
            ) by {
                assert(flood.queue@[0] == pos);
            }
            assert forall|x: Position, w: Seq<Direction>| #[trigger]
                walk(board, start, w, x) && w.len() <= flood.level(0) implies flood.seen(
                board,
                x,
            ) by {
                assert(x == start);
            }
            assert forall|pos: Position| board.in_bounds(pos) implies #[trigger] flood.hop(
                board,
                pos,
            ) by {
                lemma_index(board, pos);
                if board.index(pos) == board.index(start) {
                    lemma_index_injective(board, pos, start);
                }
            }
            assert forall|x: Position, w: Seq<Direction>|
                board.in_bounds(x) && flood.seen(board, x) && #[trigger] walk(board, start, w, x)
                    && w.len() == flood.depth@[x] implies not_later(flood.route@[x], w) by {
                assert(w =~= Seq::<Direction>::empty());
            }
            assert(flood.queue@[0] == start);
        }
        flood
    }

    /// Tries the step from `prev` in direction `dir`: an unseen floor tile
    /// there is marked, and queued unless it is the destination.
    fn visit(
        &mut self,
        puzzle: &Puzzle,
        start: Position,
        dest: Position,
        prev: Position,
        dir: Direction,
        Ghost(head): Ghost<int>,
    ) -> (found: bool)
        requires
            old(self).traced(puzzle@, start),
            old(self).settled(puzzle@, head),
            old(self).leveled(puzzle@, start, head),
            old(self).chained(puzzle@, start),
            old(self).sorted(puzzle@, start, head, rank(dir)),
            prev == old(self).queue@[head],
            puzzle@.in_bounds(prev),
            old(self).seen(puzzle@, prev),
            puzzle@.in_bounds(dest),
            !old(self).seen(puzzle@, dest),
        ensures
            final(self).traced(puzzle@, start),
            final(self).extends(*old(self), puzzle@),
            found ==> final(self).seen(puzzle@, dest),
            found ==> forall|w: Seq<Direction>| #[trigger]
                walk(puzzle@, start, w, dest) ==> final(self).depth@[dest] <= w.len(),
            final(self).chained(puzzle@, start),
            found ==> forall|w: Seq<Direction>| #[trigger]
                walk(puzzle@, start, w, dest) && w.len() == final(self).depth@[dest] ==> not_later(
                    final(self).route@[dest],
                    w,
                ),
            !found ==> final(self).sorted(puzzle@, start, head, rank(dir) + 1),
            !found ==> !final(self).seen(puzzle@, dest) && final(self).settled(puzzle@, head)
                && final(self).open_at(puzzle@, prev, dir) && final(self).leveled(
                puzzle@,
                start,
                head,
            ),
            unseen_count(final(self).marks@) < unseen_count(old(self).marks@)
                || (final(self).marks@ == old(self).marks@
                && final(self).queue@ == old(self).queue@),
    {
        let ghost board = puzzle@;
        let ghost before = *self;
        let next = match dir.go(prev) {
            Some(next) => next,
            None => {
                proof {
                    self.lemma_tried_more(board, start, head, rank(dir));
                }
                return false;
            },
        };
        if !puzzle.is_floor(next) {
            proof {
                self.lemma_tried_more(board, start, head, rank(dir));
            }
            return false;
        }
        let at = puzzle.offset(next);
        match &self.marks[at] {
            Mark::Unseen => {},
            _ => {
                proof {
                    self.lemma_tried_more(board, start, head, rank(dir));
                }
                return false;
            },
        }
        self.marks.set(at, Mark::Via(dir));
        proof {
            self.depth@ = self.depth@.insert(next, self.depth@[prev] + 1);
            self.route@ = self.route@.insert(next, self.route@[prev].push(dir));
            self.parent@ = self.parent@.insert(next, head);
        }
        let found = same_position(next, dest);
        if !found {
            self.queue.push(next);
        }
        proof {
            lemma_mark_counts(before.marks@, at as int, Mark::Via(dir));
            assert forall|pos: Position| board.in_bounds(pos) && pos != next implies self.mark(
                board,
                pos,
            ) == before.mark(board, pos) by {
                lemma_index(board, pos);
                if board.index(pos) == board.index(next) {
                    lemma_index_injective(board, pos, next);
                }
            }
            assert(self.mark(board, next) == Mark::Via(dir));
            assert(before.link(board, start, prev));
            assert(step(spec_opposite(dir), next) == Some(prev));
            assert forall|pos: Position| board.in_bounds(pos) implies #[trigger] self.link(
                board,
                start,
                pos,
            ) by {
                assert(before.link(board, start, pos));
                if pos != next {
                    match before.mark(board, pos) {
                        Mark::Via(d) => {
                            let b = step(spec_opposite(d), pos).unwrap();
                            assert(b != next);
                            assert(pos != next);
                        },
                        _ => {},
                    }
                }
            }
            assert forall|j: int| 0 <= j < self.queue@.len() implies board.in_bounds(
                #[trigger] self.queue@[j],
            ) && self.seen(board, self.queue@[j]) by {
                if j < before.queue@.len() {
                    assert(self.queue@[j] == before.queue@[j]);
                    assert(before.seen(board, before.queue@[j]));
                }
            }
            self.lemma_mark_levels(before, board, start, head, prev, next, !found);
            self.lemma_mark_routes(before, board, start, head, prev, next, dir, !found);
            if !found {
                assert forall|pos: Position|
                    board.in_bounds(pos) && #[trigger] self.seen(board, pos) implies self.expanded(
                    board,
                    pos,
                ) || self.queued(pos, head) by {
                    if pos == next {
                        assert(self.queue@[self.queue@.len() - 1] == pos);
                    } else {
                        assert(before.seen(board, pos));
                        if before.queued(pos, head) {
                            let j = choose|j: int|
                                head <= j < before.queue@.len() && #[trigger] before.queue@[j]
                                    == pos;
                            assert(self.queue@[j] == pos);
                        } else {
                            assert(before.expanded(board, pos));
                            self.lemma_open_kept(before, board, pos, Direction::Up);
                            self.lemma_open_kept(before, board, pos, Direction::Down);
                            self.lemma_open_kept(before, board, pos, Direction::Left);
                            self.lemma_open_kept(before, board, pos, Direction::Right);
                        }
                    }
                }
            }
        }
        found
    }

    /// A direction that needed no work needs none after more cells were
    /// reached.
    proof fn lemma_open_kept(self, earlier: Flood, board: Board, pos: Position, dir: Direction)
        requires
            self.extends(earlier, board),
            earlier.open_at(board, pos, dir),
        ensures
            self.open_at(board, pos, dir),
    {
        match step(dir, pos) {
            Some(next) => {
                if board.floor_at(next) {
                    assert(earlier.seen(board, next));
                }
            },
            None => {},
        }
    }

    /// Knowing more than someone who knows more than a third is knowing
    /// more than the third.
    proof fn lemma_extends_chain(self, mid: Flood, earlier: Flood, board: Board)
        requires
            self.extends(mid, board),
            mid.extends(earlier, board),
        ensures
            self.extends(earlier, board),
    {
        assert forall|pos: Position|
            board.in_bounds(pos) && #[trigger] earlier.seen(board, pos) implies self.mark(
            board,
            pos,
        ) == earlier.mark(board, pos) by {
            assert(mid.seen(board, pos));
        }
    }

    /// Floods the grid from `start` until `dest` is marked or nothing is left
    /// to expand. Cells are expanded in the order in which they were reached,
    /// their neighbours in the order up, down, left, right.
    fn run(puzzle: &Puzzle, start: Position, dest: Position) -> (out: (bool, Flood))
        requires
            puzzle@.shaped(),
            puzzle@.floor_at(start),
            puzzle@.floor_at(dest),
            start != dest,
        ensures
            out.1.traced(puzzle@, start),
            out.0 ==> out.1.seen(puzzle@, dest),
            out.0 ==> forall|w: Seq<Direction>| #[trigger]
                walk(puzzle@, start, w, dest) ==> out.1.depth@[dest] <= w.len(),
            out.1.chained(puzzle@, start),
            out.0 ==> forall|w: Seq<Direction>| #[trigger]
                walk(puzzle@, start, w, dest) && w.len() == out.1.depth@[dest] ==> not_later(
                    out.1.route@[dest],
                    w,
                ),
            out.0 == reachable(puzzle@, start, dest),
    {
        let ghost board = puzzle@;
        let mut flood = Flood::begin(puzzle, start);
        let mut head: usize = 0;
        while head < flood.queue.len()
            invariant
                board == puzzle@,
                board.shaped(),
                board.in_bounds(dest),
                flood.traced(board, start),
                flood.settled(board, head as int),
                0 <= head <= flood.queue@.len(),
                head < flood.queue@.len() ==> flood.leveled(board, start, head as int),
                head < flood.queue@.len() ==> flood.sorted(board, start, head as int, 0),
                flood.chained(board, start),
                !flood.seen(board, dest),
            decreases unseen_count(flood.marks@), flood.queue@.len() - head,
        {
            let prev = flood.queue[head];
            let ghost f0 = flood;
            assert(f0.seen(board, prev));
            if flood.visit(puzzle, start, dest, prev, Direction::Up, Ghost(head as int)) {
                proof {
                    flood.lemma_seen_reachable(board, start, dest);
                }
                return (true, flood);
            }
            let ghost f1 = flood;
            assert(f1.seen(board, prev));
            if flood.visit(puzzle, start, dest, prev, Direction::Down, Ghost(head as int)) {
                proof {
                    flood.lemma_seen_reachable(board, start, dest);
                }
                return (true, flood);
            }
            let ghost f2 = flood;
            assert(f2.seen(board, prev));
            if flood.visit(puzzle, start, dest, prev, Direction::Left, Ghost(head as int)) {
                proof {
                    flood.lemma_seen_reachable(board, start, dest);
                }
                return (true, flood);
            }
            let ghost f3 = flood;
            assert(f3.seen(board, prev));
            if flood.visit(puzzle, start, dest, prev, Direction::Right, Ghost(head as int)) {
                proof {
                    flood.lemma_seen_reachable(board, start, dest);
                }
                return (true, flood);
            }
            proof {
                flood.lemma_open_kept(f3, board, prev, Direction::Left);
                flood.lemma_extends_chain(f3, f2, board);
                flood.lemma_open_kept(f2, board, prev, Direction::Down);
                flood.lemma_extends_chain(f2, f1, board);
                flood.lemma_open_kept(f1, board, prev, Direction::Up);
                flood.lemma_extends_chain(f1, f0, board);
                assert(flood.expanded(board, prev));
                assert(flood.queue@[head as int] == prev);
                assert forall|pos: Position|
                    board.in_bounds(pos) && #[trigger] flood.seen(board, pos) implies flood.expanded(
                    board,
                    pos,
                ) || flood.queued(pos, head + 1) by {
                    if !flood.expanded(board, pos) {
                        let j = choose|j: int|
                            head <= j < flood.queue@.len() && #[trigger] flood.queue@[j] == pos;
                        assert(j != head);
                    }
                }
                if head + 1 < flood.queue@.len() {
                    flood.lemma_advance_routes(board, start, head as int, 4);
                    flood.lemma_advance(board, start, head as int);
                }
            }
            head += 1;
        }
        proof {
            if reachable(board, start, dest) {
                let w = choose|w: Seq<Direction>| walk(board, start, w, dest);
                assert forall|pos: Position|
                    board.in_bounds(pos) && #[trigger] flood.seen(board, pos) implies flood.expanded(
                    board,
                    pos,
                ) || flood.queued(pos, flood.queue@.len() as int) by {}
                flood.lemma_closed(board, start, w, dest);
            }
        }
        (false, flood)
    }
}

/// The shortest-walk search: the least walk that leads the player from
/// `start` to `destination` over floor tiles, or `None` when an end is
/// outside the grid or not a floor tile, or when no walk joins them. Of the
/// shortest walks it is the one that takes the earlier direction where they
/// part, in the order up, down, left, right.
pub fn go_to(start: Position, destination: Position, puzzle: &Puzzle) -> (path: Option<
    VecDeque<Direction>,
>)
    requires
        puzzle@.shaped(),
    ensures
        path.is_some() == connected(puzzle@, start, destination),
        path.is_some() ==> is_least_walk(puzzle@, start, path.unwrap()@, destination)
            && path.unwrap()@ == least_walk(puzzle@, start, destination),
        path.is_some() && start == destination ==> path.unwrap()@ == Seq::<Direction>::empty(),
{
    let ghost board = puzzle@;
    if !puzzle.is_floor(start) || !puzzle.is_floor(destination) {
        return None;
    }
    if same_position(start, destination) {
        assert(walk(board, start, Seq::<Direction>::empty(), destination));
        proof {
            assert forall|other: Seq<Direction>| other.len() == 0 implies other
                == Seq::<Direction>::empty() by {
                assert(other =~= Seq::<Direction>::empty());
            }
            lemma_least_walk(board, start, Seq::<Direction>::empty(), destination);
        }
        return Some(VecDeque::new());
    }
    let (found, flood) = Flood::run(puzzle, start, destination);
    if !found {
        return None;
    }
    let mut moves: VecDeque<Direction> = VecDeque::new();
    let mut next = destination;
    let mut tracing = true;
    assert(flood.route@[next] + moves@ =~= flood.route@[destination]);
    while tracing
        invariant
            board == puzzle@,
            flood.traced(board, start),
            board.in_bounds(next),
            flood.seen(board, next),
            walk(board, next, moves@, destination),
            moves@.len() + flood.depth@[next] == flood.depth@[destination],
            flood.chained(board, start),
            flood.route@[next] + moves@ == flood.route@[destination],
            !tracing ==> next == start,
        decreases flood.depth@[next], (if tracing { 1nat } else { 0nat }),
    {
        let at = puzzle.offset(next);
        assert(flood.link(board, start, next));
        match &flood.marks[at] {
            Mark::Via(direction) => {
                let direction = *direction;
                let ghost shorter = moves@;
                let ghost end = next;
                let back = opposite(direction).go(next);
                next = back.unwrap();
                moves.push_front(direction);
                proof {
                    assert(moves@[0] == direction);
                    assert(moves@.drop_first() =~= shorter);
                    assert(step(moves@[0], next) == Some(end));
                    assert(flood.hop(board, end));
                    assert(flood.route@[next] + moves@ =~= flood.route@[end] + shorter);
                }
            },
            _ => {
                tracing = false;
            },
        }
    }
    assert(moves@ =~= flood.route@[destination]);
    proof {
        lemma_least_walk(board, start, moves@, destination);
    }
    Some(moves)
}

/// Whether the player can walk from `start` to `destination`: the answer of
/// `go_to` without the path.
pub fn can_go_to(start: Position, destination: Position, puzzle: &Puzzle) -> (ok: bool)
    requires
        puzzle@.shaped(),
    ensures
        ok == connected(puzzle@, start, destination),
{
    if !puzzle.is_floor(start) || !puzzle.is_floor(destination) {
        return false;
    }
    if same_position(start, destination) {
        assert(walk(puzzle@, start, Seq::<Direction>::empty(), destination));
        return true;
    }
    let (found, _) = Flood::run(puzzle, start, destination);
    found
}

/// `go_to` finds no path exactly where `can_go_to` says no, which is exactly
/// where the two cells are not connected.
pub proof fn law_no_path_iff_unreachable(
    board: Board,
    start: Position,
    destination: Position,
    path: Option<Seq<Direction>>,
    ok: bool,
)
    requires
        path.is_some() == connected(board, start, destination),
        ok == connected(board, start, destination),
    ensures
        path.is_none() <==> !ok,
        path.is_none() <==> !connected(board, start, destination),
{
}

/// A walk from a floor tile to itself needs no move.
pub proof fn law_walk_to_self(board: Board, pos: Position)
    requires
        board.floor_at(pos),
    ensures
        connected(board, pos, pos),
        walk(board, pos, Seq::<Direction>::empty(), pos),
{
}

/// Playing a walk that starts at the player's position is legal, leaves the
/// player at the walk's end and moves no crate.
pub proof fn law_walk_is_legal(board: Board, moves: Seq<Direction>, to: Position)
    requires
        board.wf(),
        walk(board, board.player, moves, to),
    ensures
        board.replay(moves) == Some(board.with_player(to)),
{
    lemma_walk_replay(board, board, moves, to);
}

} // verus!
