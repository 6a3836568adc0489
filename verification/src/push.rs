//! Push planning: a breadth-first search over the positions of one crate,
//! each push enabled by a walk of the player to the push point, and the
//! assembly of the player's full move list.

use vstd::prelude::*;
use std::collections::VecDeque;
use sokoban::{Direction, Tile};
use crate::grid::{
    append_moves, list_moves, opposite, rank, same_position, spec_opposite, step, Position,
};
use crate::puzzle::{
    lemma_index, lemma_index_injective, lemma_replay_concat, lemma_replay_push, lemma_with_tile,
    Board, Puzzle,
};
use crate::walk::{
    blank_marks, can_go_to, connected, earlier, go_to, law_least_walk_is_unique, least_walk,
    lemma_connected_grid, lemma_earlier_last, lemma_earlier_push, lemma_mark_counts,
    lemma_walk_replay, not_later, unseen_count, Mark,
};

verus! {

/// The board after the crate at `from` has been pushed to `to`: the crate's
/// old tile is floor, its new tile carries it, nothing else has changed but
/// the player's position.
pub open spec fn crate_moved(before: Board, from: Position, to: Position, after: Board) -> bool {
    &&& after.rows == before.rows
    &&& after.cols == before.cols
    &&& after.targets == before.targets
    &&& after.tiles == before.tiles.update(before.index(from), Tile::Floor).update(
        before.index(to),
        Tile::Crate,
    )
    &&& after.wf()
}

/// `moves` is a legal sequence of player moves on `board` that pushes the
/// crate at `from` to `to`.
pub open spec fn pushes(board: Board, from: Position, to: Position, moves: Seq<Direction>) -> bool {
    match board.replay(moves) {
        Some(after) => crate_moved(board, from, to, after),
        None => false,
    }
}

/// Where the crate stands after it was pushed from `from` in the directions
/// `dirs`, one after the other.
pub open spec fn pushed_along(from: Position, dirs: Seq<Direction>) -> Option<Position>
    decreases dirs.len(),
{
    if dirs.len() == 0 {
        Some(from)
    } else {
        match pushed_along(from, dirs.drop_last()) {
            Some(mid) => step(dirs.last(), mid),
            None => None,
        }
    }
}

/// The player's moves that push the crate at `from` in the directions
/// `dirs`, one after the other: for each push the least walk to the push
/// point, on the board that the moves before it left, and then the push.
pub open spec fn push_plan(board: Board, from: Position, dirs: Seq<Direction>) -> Seq<Direction>
    decreases dirs.len(),
{
    if dirs.len() == 0 {
        Seq::empty()
    } else {
        let before = push_plan(board, from, dirs.drop_last());
        let reached = board.replay(before).unwrap();
        let point = step(
            spec_opposite(dirs.last()),
            pushed_along(from, dirs.drop_last()).unwrap(),
        ).unwrap();
        before + least_walk(reached, reached.player, point).push(dirs.last())
    }
}

/// One push brings the crate from `from` to `to`: `to` is the tile ahead, it
/// and the push point are floor on the board without the crate, and the
/// player can walk to the push point while the crate stands at `from`.
pub open spec fn one_push(
    lifted: Board,
    player: Position,
    from: Position,
    dir: Direction,
    to: Position,
) -> bool {
    step(dir, from) == Some(to) && lifted.floor_at(to) && match step(spec_opposite(dir), from) {
        Some(point) => lifted.floor_at(point) && connected(
            lifted.with_tile(from, Tile::Crate),
            player,
            point,
        ),
        None => false,
    }
}

/// One push in some direction brings the crate from `from` to `to`.
pub open spec fn any_push(lifted: Board, player: Position, from: Position, to: Position) -> bool {
    one_push(lifted, player, from, Direction::Up, to) || one_push(
        lifted,
        player,
        from,
        Direction::Down,
        to,
    ) || one_push(lifted, player, from, Direction::Left, to) || one_push(
        lifted,
        player,
        from,
        Direction::Right,
        to,
    )
}

/// The push of the crate at `at` in direction `dir` can be made with the
/// player at `stand`.
pub open spec fn enabled(lifted: Board, stand: Position, at: Position, dir: Direction) -> bool {
    match step(dir, at) {
        Some(to) => one_push(lifted, stand, at, dir, to),
        None => false,
    }
}

/// Where the player stands after the pushes `chain` of the crate at `from`:
/// where the crate stood before the last of them.
pub open spec fn stand_after(lifted: Board, from: Position, chain: Seq<Direction>) -> Position {
    if chain.len() == 0 {
        lifted.player
    } else {
        pushed_along(from, chain.drop_last()).unwrap()
    }
}

/// The earlier of two chains, where there are two.
pub open spec fn earliest(a: Option<Seq<Direction>>, b: Option<Seq<Direction>>) -> Option<
    Seq<Direction>,
> {
    match (a, b) {
        (Some(x), Some(y)) => if not_later(x, y) {
            a
        } else {
            b
        },
        (Some(_), None) => a,
        _ => b,
    }
}

/// The chain of `n` pushes that brings the crate to `to` by a last push in
/// direction `dir`: the chain that the search keeps for the position
/// before, if it has one push less and the push can be made after it, and
/// that push.
pub open spec fn grown_by(
    lifted: Board,
    from: Position,
    n: nat,
    to: Position,
    dir: Direction,
) -> Option<Seq<Direction>>
    decreases n, 0nat,
{
    if n == 0 {
        None
    } else {
        match step(spec_opposite(dir), to) {
            Some(at) => match kept_chain(lifted, from, (n - 1) as nat, at) {
                Some(chain) => if chain.len() + 1 == n && enabled(
                    lifted,
                    stand_after(lifted, from, chain),
                    at,
                    dir,
                ) {
                    Some(chain.push(dir))
                } else {
                    None
                },
                None => None,
            },
            None => None,
        }
    }
}

/// The chain of pushes that the search keeps for the crate position `to`
/// among the chains of `n` pushes at most: the search keeps one chain for
/// each position, the shortest that it can grow out of the chains that it
/// keeps, and among those the one that comes first.
pub open spec fn kept_chain(lifted: Board, from: Position, n: nat, to: Position) -> Option<
    Seq<Direction>,
>
    decreases n, 1nat,
{
    if n == 0 {
        if to == from {
            Some(Seq::empty())
        } else {
            None
        }
    } else {
        match kept_chain(lifted, from, (n - 1) as nat, to) {
            Some(chain) => Some(chain),
            None => earliest(
                earliest(
                    earliest(
                        grown_by(lifted, from, n, to, Direction::Up),
                        grown_by(lifted, from, n, to, Direction::Down),
                    ),
                    grown_by(lifted, from, n, to, Direction::Left),
                ),
                grown_by(lifted, from, n, to, Direction::Right),
            ),
        }
    }
}

/// Where `least` is one of two chains and not later than either, it is the
/// earlier of the two.
pub proof fn lemma_earliest(
    a: Option<Seq<Direction>>,
    b: Option<Seq<Direction>>,
    least: Seq<Direction>,
)
    requires
        a.is_some() ==> not_later(least, a.unwrap()),
        b.is_some() ==> not_later(least, b.unwrap()),
    ensures
        earliest(a, b).is_some() ==> not_later(least, earliest(a, b).unwrap()),
        a == Some(least) || b == Some(least) ==> earliest(a, b) == Some(least),
{
    if a.is_some() && b.is_some() {
        if b == Some(least) && not_later(a.unwrap(), b.unwrap()) {
            law_least_walk_is_unique(least, a.unwrap());
        }
    }
}

/// The pushes by which the search brings the crate at `from` to `to`, if it
/// finds any.
pub open spec fn push_chain(board: Board, from: Position, to: Position) -> Option<Seq<Direction>> {
    let lifted = board.with_tile(from, Tile::Floor);
    if exists|n: nat| kept_chain(lifted, from, n, to).is_some() {
        kept_chain(lifted, from, choose|n: nat| kept_chain(lifted, from, n, to).is_some(), to)
    } else {
        None
    }
}

/// The player's moves by which the crate at `from` is brought to `to`: none
/// where it stands there already, else the plan of the pushes that the
/// search finds; nothing where `from` holds no crate, `to` is no floor tile
/// or the search finds no pushes.
pub open spec fn planned(board: Board, from: Position, to: Position) -> Option<Seq<Direction>> {
    if !board.crate_at(from) {
        None
    } else if from == to {
        Some(Seq::empty())
    } else if !board.floor_at(to) {
        None
    } else {
        match push_chain(board, from, to) {
            Some(dirs) => Some(push_plan(board, from, dirs)),
            None => None,
        }
    }
}

/// A chain that the search keeps for a position stays the chain that it
/// keeps, whatever more pushes are allowed.
pub proof fn lemma_kept_stays(lifted: Board, from: Position, n: nat, more: nat, to: Position)
    requires
        kept_chain(lifted, from, n, to).is_some(),
        n <= more,
    ensures
        kept_chain(lifted, from, more, to) == kept_chain(lifted, from, n, to),
    decreases more,
{
    if n < more {
        lemma_kept_stays(lifted, from, n, (more - 1) as nat, to);
    }
}

/// Any number of pushes under which the search keeps a chain for the
/// destination gives the chain that it finds.
pub proof fn lemma_push_chain(board: Board, from: Position, n: nat, to: Position)
    requires
        kept_chain(board.with_tile(from, Tile::Floor), from, n, to).is_some(),
    ensures
        push_chain(board, from, to) == kept_chain(board.with_tile(from, Tile::Floor), from, n, to),
{
    let lifted = board.with_tile(from, Tile::Floor);
    let m = choose|m: nat| kept_chain(lifted, from, m, to).is_some();
    if m <= n {
        lemma_kept_stays(lifted, from, m, n, to);
    } else {
        lemma_kept_stays(lifted, from, n, m, to);
    }
}

/// The state of a push search: the back-pointer of every crate position, and
/// the positions in the order in which they were reached. For the proofs it
/// also keeps the number of pushes that lead to each position.
struct Shove {
    marks: Vec<Mark>,
    queue: Vec<Position>,
    depth: Ghost<Map<Position, nat>>,
    route: Ghost<Map<Position, Seq<Direction>>>,
    parent: Ghost<Map<Position, int>>,
}

impl Shove {
    spec fn mark(self, board: Board, pos: Position) -> Mark {
        self.marks@[board.index(pos)]
    }

    spec fn seen(self, board: Board, pos: Position) -> bool {
        self.mark(board, pos) != Mark::Unseen
    }

    /// Where the player stands once the crate has reached `pos`.
    spec fn stand(self, board: Board, pos: Position) -> Position {
        match self.mark(board, pos) {
            Mark::Via(dir) => step(spec_opposite(dir), pos).unwrap(),
            _ => board.player,
        }
    }

    /// The back-pointer of a crate position names a push that the player can
    /// make: `lifted` is the board without the crate.
    spec fn link(self, lifted: Board, start: Position, pos: Position) -> bool {
        match self.mark(lifted, pos) {
            Mark::Unseen => true,
            Mark::Origin => pos == start,
            Mark::Via(dir) => lifted.floor_at(pos) && match step(spec_opposite(dir), pos) {
                Some(before) => lifted.in_bounds(before) && step(dir, before) == Some(pos)
                    && self.seen(lifted, before) && self.depth@[before] + 1 == self.depth@[pos]
                    && match step(spec_opposite(dir), before) {
                    Some(point) => lifted.floor_at(point) && connected(
                        lifted.with_tile(before, Tile::Crate),
                        self.stand(lifted, before),
                        point,
                    ),
                    None => false,
                },
                None => false,
            },
        }
    }

    spec fn traced(self, lifted: Board, start: Position) -> bool {
        &&& lifted.shaped()
        &&& self.marks@.len() == lifted.tiles.len()
        &&& lifted.floor_at(start)
        &&& self.mark(lifted, start) == Mark::Origin
        &&& self.depth@[start] == 0
        &&& forall|pos: Position| lifted.in_bounds(pos) ==> #[trigger] self.link(lifted, start, pos)
        &&& forall|j: int|
            0 <= j < self.queue@.len() ==> lifted.in_bounds(#[trigger] self.queue@[j]) && self.seen(
                lifted,
                self.queue@[j],
            )
    }

    /// The chain kept for a position has as many pushes as the position is
    /// deep, leads there, and is the chain of the position before with the
    /// push from there.
    spec fn hop(self, lifted: Board, start: Position, pos: Position) -> bool {
        self.seen(lifted, pos) ==> {
            &&& self.route@[pos].len() == self.depth@[pos]
            &&& pushed_along(start, self.route@[pos]) == Some(pos)
            &&& match self.mark(lifted, pos) {
                Mark::Via(dir) => self.route@[pos] == self.route@[step(
                    spec_opposite(dir),
                    pos,
                ).unwrap()].push(dir),
                _ => self.route@[pos] == Seq::<Direction>::empty(),
            }
        }
    }

    spec fn routed(self, lifted: Board, start: Position) -> bool {
        forall|pos: Position| lifted.in_bounds(pos) ==> #[trigger] self.hop(lifted, start, pos)
    }

    /// The chain of a position reached is the chain that the search keeps
    /// for it, and it keeps none with fewer pushes.
    spec fn exact(self, lifted: Board, start: Position) -> bool {
        forall|pos: Position|
            lifted.in_bounds(pos) && #[trigger] self.seen(lifted, pos) ==> kept_chain(
                lifted,
                start,
                self.depth@[pos],
                pos,
            ) == Some(self.route@[pos]) && (self.depth@[pos] > 0 ==> kept_chain(
                lifted,
                start,
                (self.depth@[pos] - 1) as nat,
                pos,
            ).is_none())
    }

    /// The number of pushes that lead to the position at `head` of the
    /// queue.
    spec fn level(self, head: int) -> nat {
        self.depth@[self.queue@[head]]
    }

    /// Every position with a kept chain within the current level was
    /// reached.
    spec fn swept(self, lifted: Board, start: Position, head: int) -> bool {
        forall|x: Position|
            (#[trigger] kept_chain(lifted, start, self.level(head), x)).is_some()
                ==> lifted.in_bounds(x) && self.seen(lifted, x)
    }

    /// The queue holds the positions by level, and none beyond the level
    /// after the current one.
    spec fn ordered(self, head: int) -> bool {
        &&& forall|i: int, j: int|
            0 <= i <= j < self.queue@.len() ==> self.depth@[#[trigger] self.queue@[i]]
                <= self.depth@[#[trigger] self.queue@[j]]
        &&& forall|j: int|
            0 <= j < self.queue@.len() ==> self.depth@[#[trigger] self.queue@[j]] <= self.level(
                head,
            ) + 1
    }

    spec fn queued(self, pos: Position, head: int) -> bool {
        exists|j: int| head <= j < self.queue@.len() && #[trigger] self.queue@[j] == pos
    }

    /// Every position reached stands in the queue.
    spec fn listed(self, lifted: Board) -> bool {
        forall|pos: Position|
            lifted.in_bounds(pos) && #[trigger] self.seen(lifted, pos) ==> self.queued(pos, 0)
    }

    /// Nothing is left to do for the push from `pos` in direction `dir`.
    spec fn open_at(self, lifted: Board, pos: Position, dir: Direction) -> bool {
        enabled(lifted, self.stand(lifted, pos), pos, dir) ==> self.seen(
            lifted,
            step(dir, pos).unwrap(),
        )
    }

    spec fn expanded(self, lifted: Board, pos: Position) -> bool {
        &&& self.open_at(lifted, pos, Direction::Up)
        &&& self.open_at(lifted, pos, Direction::Down)
        &&& self.open_at(lifted, pos, Direction::Left)
        &&& self.open_at(lifted, pos, Direction::Right)
    }

    /// Every position reached is expanded or waits in the queue.
    spec fn settled(self, lifted: Board, head: int) -> bool {
        forall|pos: Position|
            lifted.in_bounds(pos) && #[trigger] self.seen(lifted, pos) ==> self.expanded(
                lifted,
                pos,
            ) || self.queued(pos, head)
    }

    /// A position of the level after the current one was reached from a
    /// position up to the head of the queue, and from the head only in a
    /// direction among the first `tried`.
    spec fn child(self, lifted: Board, head: int, tried: nat, pos: Position) -> bool {
        match self.mark(lifted, pos) {
            Mark::Via(dir) => 0 <= self.parent@[pos] <= head && self.queue@[self.parent@[pos]]
                == step(spec_opposite(dir), pos).unwrap() && (self.parent@[pos] == head ==> rank(
                dir,
            ) < tried),
            _ => false,
        }
    }

    /// The queue holds the positions of one level in the order of their
    /// chains.
    spec fn sorted(self, lifted: Board, head: int, tried: nat) -> bool {
        &&& forall|i: int, j: int|
            0 <= i < j < self.queue@.len() && self.depth@[#[trigger] self.queue@[i]]
                == self.depth@[#[trigger] self.queue@[j]] ==> earlier(
                self.route@[self.queue@[i]],
                self.route@[self.queue@[j]],
            )
        &&& forall|j: int|
            0 <= j < self.queue@.len() && self.depth@[#[trigger] self.queue@[j]] == self.level(head)
                + 1 ==> self.child(lifted, head, tried, self.queue@[j])
    }

    spec fn searching(self, lifted: Board, start: Position, head: int, tried: nat) -> bool {
        &&& 0 <= head < self.queue@.len()
        &&& self.routed(lifted, start)
        &&& self.exact(lifted, start)
        &&& self.swept(lifted, start, head)
        &&& self.ordered(head)
        &&& self.listed(lifted)
        &&& self.settled(lifted, head)
        &&& self.sorted(lifted, head, tried)
    }

    /// `self` knows all that `earlier` knew.
    spec fn extends(self, earlier: Shove, lifted: Board) -> bool {
        &&& self.marks@.len() == earlier.marks@.len()
        &&& forall|pos: Position|
            lifted.in_bounds(pos) && #[trigger] earlier.seen(lifted, pos) ==> self.mark(lifted, pos)
                == earlier.mark(lifted, pos)
        &&& self.queue@.len() >= earlier.queue@.len()
        &&& forall|j: int| 0 <= j < earlier.queue@.len() ==> self.queue@[j] == earlier.queue@[j]
    }

    proof fn lemma_extends_chain(self, mid: Shove, earlier: Shove, lifted: Board)
        requires
            self.extends(mid, lifted),
            mid.extends(earlier, lifted),
        ensures
            self.extends(earlier, lifted),
    {
        assert forall|pos: Position|
            lifted.in_bounds(pos) && #[trigger] earlier.seen(lifted, pos) implies self.mark(
            lifted,
            pos,
        ) == earlier.mark(lifted, pos) by {
            assert(mid.seen(lifted, pos));
        }
    }

    /// A push that needed no work needs none after more positions were
    /// reached.
    proof fn lemma_open_kept(self, earlier: Shove, lifted: Board, pos: Position, dir: Direction)
        requires
            lifted.shaped(),
            self.extends(earlier, lifted),
            lifted.in_bounds(pos),
            earlier.seen(lifted, pos),
            earlier.open_at(lifted, pos, dir),
        ensures
            self.open_at(lifted, pos, dir),
    {
        assert(self.stand(lifted, pos) == earlier.stand(lifted, pos));
        if enabled(lifted, self.stand(lifted, pos), pos, dir) {
            let next = step(dir, pos).unwrap();
            assert(earlier.seen(lifted, next));
        }
    }

    /// One more direction tried keeps the order.
    proof fn lemma_tried_more(self, lifted: Board, head: int, tried: nat)
        requires
            self.sorted(lifted, head, tried),
        ensures
            self.sorted(lifted, head, tried + 1),
    {
        assert forall|j: int|
            0 <= j < self.queue@.len() && self.depth@[#[trigger] self.queue@[j]] == self.level(head)
                + 1 implies self.child(lifted, head, tried + 1, self.queue@[j]) by {
            assert(self.child(lifted, head, tried, self.queue@[j]));
        }
    }

    /// The player stands, once the crate has reached a position, where the
    /// chain kept for the position leaves them.
    proof fn lemma_stand(self, lifted: Board, start: Position, pos: Position)
        requires
            self.traced(lifted, start),
            self.routed(lifted, start),
            lifted.in_bounds(pos),
            self.seen(lifted, pos),
        ensures
            self.stand(lifted, pos) == stand_after(lifted, start, self.route@[pos]),
    {
        assert(self.hop(lifted, start, pos));
        assert(self.link(lifted, start, pos));
        match self.mark(lifted, pos) {
            Mark::Via(dir) => {
                let before = step(spec_opposite(dir), pos).unwrap();
                assert(self.hop(lifted, start, before));
                assert(self.route@[pos].drop_last() =~= self.route@[before]);
            },
            _ => {},
        }
    }

    /// A chain that the search keeps for a position reached is the chain of
    /// that position.
    proof fn lemma_seen_kept(
        self,
        lifted: Board,
        start: Position,
        n: nat,
        pos: Position,
        chain: Seq<Direction>,
    )
        requires
            self.exact(lifted, start),
            lifted.in_bounds(pos),
            self.seen(lifted, pos),
            kept_chain(lifted, start, n, pos) == Some(chain),
        ensures
            chain == self.route@[pos],
            self.depth@[pos] <= n,
    {
        let depth = self.depth@[pos];
        if n >= depth {
            lemma_kept_stays(lifted, start, depth, n, pos);
        } else {
            lemma_kept_stays(lifted, start, n, (depth - 1) as nat, pos);
        }
    }

    /// A chain grown out of the kept chains ends with a push that can be
    /// made from a position reached, with the player where the search has
    /// them stand.
    proof fn lemma_grown_by(
        self,
        lifted: Board,
        start: Position,
        below: nat,
        to: Position,
        dir: Direction,
    ) -> (at: Position)
        requires
            self.traced(lifted, start),
            self.routed(lifted, start),
            self.exact(lifted, start),
            grown_by(lifted, start, below + 1, to, dir).is_some(),
            forall|x: Position|
                (#[trigger] kept_chain(lifted, start, below, x)).is_some() ==> lifted.in_bounds(x)
                    && self.seen(lifted, x),
        ensures
            lifted.in_bounds(at),
            self.seen(lifted, at),
            self.depth@[at] == below,
            grown_by(lifted, start, below + 1, to, dir) == Some(self.route@[at].push(dir)),
            enabled(lifted, self.stand(lifted, at), at, dir),
            step(dir, at) == Some(to),
            lifted.floor_at(to),
    {
        let at = step(spec_opposite(dir), to).unwrap();
        let chain = kept_chain(lifted, start, below, at).unwrap();
        assert(kept_chain(lifted, start, below, at).is_some());
        self.lemma_seen_kept(lifted, start, below, at, chain);
        assert(self.hop(lifted, start, at));
        self.lemma_stand(lifted, start, at);
        at
    }

    /// Of the chains grown to the position ahead of the head of the queue,
    /// none comes before the chain of the head with the push from there.
    proof fn lemma_mark_candidate(
        self,
        lifted: Board,
        start: Position,
        head: int,
        prev: Position,
        next: Position,
        dir: Direction,
        other: Direction,
    )
        requires
            self.traced(lifted, start),
            self.searching(lifted, start, head, rank(dir)),
            prev == self.queue@[head],
            one_push(lifted, self.stand(lifted, prev), prev, dir, next),
            !self.seen(lifted, next),
        ensures
            grown_by(lifted, start, self.level(head) + 1, next, other).is_some() ==> not_later(
                self.route@[prev].push(dir),
                grown_by(lifted, start, self.level(head) + 1, next, other).unwrap(),
            ),
            grown_by(lifted, start, self.level(head) + 1, next, dir) == Some(
                self.route@[prev].push(dir),
            ),
    {
        let level = self.level(head);
        assert(self.seen(lifted, prev));
        assert(self.hop(lifted, start, prev));
        self.lemma_stand(lifted, start, prev);
        assert(step(spec_opposite(dir), next) == Some(prev));
        if grown_by(lifted, start, level + 1, next, other).is_some() {
            let at = self.lemma_grown_by(lifted, start, level, next, other);
            if self.expanded(lifted, at) {
                assert(self.open_at(lifted, at, other));
            }
            let j = choose|j: int| head <= j < self.queue@.len() && #[trigger] self.queue@[j] == at;
            if j == head {
                assert(other == dir);
            } else {
                assert(earlier(self.route@[self.queue@[head]], self.route@[self.queue@[j]]));
                lemma_earlier_push(self.route@[prev], self.route@[at], dir, other);
            }
        }
    }

    /// Marking the position ahead of the head of the queue keeps the search
    /// in step with the chains that it is to keep.
    proof fn lemma_mark_search(
        self,
        before: Shove,
        lifted: Board,
        start: Position,
        head: int,
        prev: Position,
        next: Position,
        dir: Direction,
        pushed: bool,
    )
        requires
            before.traced(lifted, start),
            self.traced(lifted, start),
            before.searching(lifted, start, head, rank(dir)),
            prev == before.queue@[head],
            one_push(lifted, before.stand(lifted, prev), prev, dir, next),
            !before.seen(lifted, next),
            self.mark(lifted, next) == Mark::Via(dir),
            forall|pos: Position|
                lifted.in_bounds(pos) && pos != next ==> #[trigger] self.mark(lifted, pos)
                    == before.mark(lifted, pos),
            self.depth@ == before.depth@.insert(next, before.depth@[prev] + 1),
            self.route@ == before.route@.insert(next, before.route@[prev].push(dir)),
            self.parent@ == before.parent@.insert(next, head),
            self.queue@ == if pushed {
                before.queue@.push(next)
            } else {
                before.queue@
            },
        ensures
            self.routed(lifted, start),
            self.exact(lifted, start),
            pushed ==> self.swept(lifted, start, head) && self.ordered(head) && self.listed(lifted)
                && self.sorted(lifted, head, rank(dir) + 1),
    {
        let level = before.level(head);
        let deeper: nat = level + 1;
        let chain = before.route@[prev].push(dir);
        assert(before.seen(lifted, prev));
        assert(lifted.in_bounds(prev));
        assert(lifted.in_bounds(next));
        assert(prev != next);
        assert(before.hop(lifted, start, prev));
        assert(chain.drop_last() =~= before.route@[prev]);
        assert(chain.last() == dir);
        before.lemma_stand(lifted, start, prev);
        assert forall|pos: Position| lifted.in_bounds(pos) implies #[trigger] self.hop(
            lifted,
            start,
            pos,
        ) by {
            assert(before.hop(lifted, start, pos));
            assert(before.link(lifted, start, pos));
            if pos != next {
                assert(self.mark(lifted, pos) == before.mark(lifted, pos));
            }
        }
        // the chain of the new position is the chain that the search is to keep
        if kept_chain(lifted, start, level, next).is_some() {
            assert(before.seen(lifted, next));
        }
        before.lemma_mark_candidate(lifted, start, head, prev, next, dir, Direction::Up);
        before.lemma_mark_candidate(lifted, start, head, prev, next, dir, Direction::Down);
        before.lemma_mark_candidate(lifted, start, head, prev, next, dir, Direction::Left);
        before.lemma_mark_candidate(lifted, start, head, prev, next, dir, Direction::Right);
        let up = grown_by(lifted, start, deeper, next, Direction::Up);
        let down = grown_by(lifted, start, deeper, next, Direction::Down);
        let left = grown_by(lifted, start, deeper, next, Direction::Left);
        let right = grown_by(lifted, start, deeper, next, Direction::Right);
        lemma_earliest(up, down, chain);
        lemma_earliest(earliest(up, down), left, chain);
        lemma_earliest(earliest(earliest(up, down), left), right, chain);
        assert(kept_chain(lifted, start, deeper, next) == Some(chain));
        assert forall|pos: Position|
            lifted.in_bounds(pos) && #[trigger] self.seen(lifted, pos) implies kept_chain(
            lifted,
            start,
            self.depth@[pos],
            pos,
        ) == Some(self.route@[pos]) && (self.depth@[pos] > 0 ==> kept_chain(
            lifted,
            start,
            (self.depth@[pos] - 1) as nat,
            pos,
        ).is_none()) by {
            if pos != next {
                assert(self.mark(lifted, pos) == before.mark(lifted, pos));
                assert(before.seen(lifted, pos));
            }
        }
        if pushed {
            assert(self.queue@[head] == prev);
            assert(self.level(head) == level);
            assert forall|x: Position|
                (#[trigger] kept_chain(lifted, start, self.level(head), x)).is_some()
                implies lifted.in_bounds(x) && self.seen(lifted, x) by {
                assert(before.seen(lifted, x));
                if x != next {
                    assert(self.mark(lifted, x) == before.mark(lifted, x));
                }
            }
            assert forall|j: int| 0 <= j < self.queue@.len() implies self.depth@[#[trigger] self.queue@[j]]
                <= self.level(head) + 1 by {
                if j < before.queue@.len() {
                    assert(self.queue@[j] == before.queue@[j]);
                    assert(before.seen(lifted, before.queue@[j]));
                }
            }
            assert forall|i: int, j: int| 0 <= i <= j < self.queue@.len() implies self.depth@[#[trigger] self.queue@[i]]
                <= self.depth@[#[trigger] self.queue@[j]] by {
                assert(self.depth@[self.queue@[i]] <= self.level(head) + 1);
                if j < before.queue@.len() {
                    assert(self.queue@[i] == before.queue@[i]);
                    assert(self.queue@[j] == before.queue@[j]);
                    assert(before.seen(lifted, before.queue@[i]));
                    assert(before.seen(lifted, before.queue@[j]));
                }
            }
            assert forall|pos: Position|
                lifted.in_bounds(pos) && #[trigger] self.seen(lifted, pos) implies self.queued(
                pos,
                0,
            ) by {
                if pos == next {
                    assert(self.queue@[self.queue@.len() - 1] == pos);
                } else {
                    assert(self.mark(lifted, pos) == before.mark(lifted, pos));
                    assert(before.seen(lifted, pos));
                    let j = choose|j: int|
                        0 <= j < before.queue@.len() && #[trigger] before.queue@[j] == pos;
                    assert(self.queue@[j] == pos);
                }
            }
            assert forall|j: int|
                0 <= j < self.queue@.len() && self.depth@[#[trigger] self.queue@[j]] == self.level(
                    head,
                ) + 1 implies self.child(lifted, head, rank(dir) + 1, self.queue@[j]) by {
                if j < before.queue@.len() {
                    let x = before.queue@[j];
                    assert(self.queue@[j] == x);
                    assert(before.seen(lifted, x));
                    assert(self.mark(lifted, x) == before.mark(lifted, x));
                    assert(before.child(lifted, head, rank(dir), x));
                    assert(self.queue@[before.parent@[x]] == before.queue@[before.parent@[x]]);
                }
            }
            assert forall|i: int, j: int|
                0 <= i < j < self.queue@.len() && self.depth@[#[trigger] self.queue@[i]]
                    == self.depth@[#[trigger] self.queue@[j]] implies earlier(
                self.route@[self.queue@[i]],
                self.route@[self.queue@[j]],
            ) by {
                let a = before.queue@[i];
                assert(self.queue@[i] == a);
                assert(before.seen(lifted, a));
                if j < before.queue@.len() {
                    let b = before.queue@[j];
                    assert(self.queue@[j] == b);
                    assert(before.seen(lifted, b));
                } else {
                    assert(before.depth@[a] == level + 1);
                    assert(before.child(lifted, head, rank(dir), a));
                    assert(before.hop(lifted, start, a));
                    assert(before.link(lifted, start, a));
                    let h = before.parent@[a];
                    match before.mark(lifted, a) {
                        Mark::Via(d) => {
                            if h == head {
                                lemma_earlier_last(before.route@[prev], d, dir);
                            } else {
                                assert(before.depth@[before.queue@[h]]
                                    == before.depth@[before.queue@[head]]);
                                assert(earlier(
                                    before.route@[before.queue@[h]],
                                    before.route@[before.queue@[head]],
                                ));
                                lemma_earlier_push(
                                    before.route@[before.queue@[h]],
                                    before.route@[prev],
                                    d,
                                    dir,
                                );
                            }
                        },
                        _ => {},
                    }
                }
            }
        }
    }

    /// Where the position after the head of the queue is one push deeper, a
    /// chain grown out of the chains of the head's level leads to a position
    /// reached.
    proof fn lemma_advance_by(
        self,
        lifted: Board,
        start: Position,
        head: int,
        to: Position,
        dir: Direction,
    )
        requires
            self.traced(lifted, start),
            self.routed(lifted, start),
            self.exact(lifted, start),
            self.swept(lifted, start, head),
            self.ordered(head),
            self.settled(lifted, head + 1),
            0 <= head,
            head + 1 < self.queue@.len(),
            self.level(head + 1) == self.level(head) + 1,
            grown_by(lifted, start, self.level(head) + 1, to, dir).is_some(),
        ensures
            lifted.in_bounds(to),
            self.seen(lifted, to),
    {
        let at = self.lemma_grown_by(lifted, start, self.level(head), to, dir);
        if self.queued(at, head + 1) {
            let j = choose|j: int|
                head + 1 <= j < self.queue@.len() && #[trigger] self.queue@[j] == at;
            assert(self.depth@[self.queue@[head + 1]] <= self.depth@[self.queue@[j]]);
        }
        assert(self.expanded(lifted, at));
        assert(self.open_at(lifted, at, dir));
    }

    /// Once every position reached is expanded, a chain grown out of the
    /// kept chains leads to a position reached.
    proof fn lemma_closed_by(
        self,
        lifted: Board,
        start: Position,
        below: nat,
        to: Position,
        dir: Direction,
    )
        requires
            self.traced(lifted, start),
            self.routed(lifted, start),
            self.exact(lifted, start),
            self.settled(lifted, self.queue@.len() as int),
            forall|x: Position|
                (#[trigger] kept_chain(lifted, start, below, x)).is_some() ==> lifted.in_bounds(x)
                    && self.seen(lifted, x),
            grown_by(lifted, start, below + 1, to, dir).is_some(),
        ensures
            lifted.in_bounds(to),
            self.seen(lifted, to),
    {
        let at = self.lemma_grown_by(lifted, start, below, to, dir);
        assert(self.expanded(lifted, at));
        assert(self.open_at(lifted, at, dir));
    }

    /// Once the position at the head of the queue is expanded, the search is
    /// in step for the position after it, with no direction tried.
    proof fn lemma_advance(self, lifted: Board, start: Position, head: int, tried: nat)
        requires
            self.traced(lifted, start),
            self.searching(lifted, start, head, tried),
            self.settled(lifted, head + 1),
            head + 1 < self.queue@.len(),
        ensures
            self.searching(lifted, start, head + 1, 0),
    {
        let level = self.level(head);
        let after = self.level(head + 1);
        assert(self.depth@[self.queue@[head]] <= self.depth@[self.queue@[head + 1]]);
        assert(self.depth@[self.queue@[head + 1]] <= level + 1);
        assert forall|x: Position|
            (#[trigger] kept_chain(lifted, start, after, x)).is_some() implies lifted.in_bounds(x)
            && self.seen(lifted, x) by {
            if kept_chain(lifted, start, level, x).is_some() {
                assert(lifted.in_bounds(x) && self.seen(lifted, x));
            } else {
                assert(after == level + 1);
                if grown_by(lifted, start, after, x, Direction::Up).is_some() {
                    self.lemma_advance_by(lifted, start, head, x, Direction::Up);
                } else if grown_by(lifted, start, after, x, Direction::Down).is_some() {
                    self.lemma_advance_by(lifted, start, head, x, Direction::Down);
                } else if grown_by(lifted, start, after, x, Direction::Left).is_some() {
                    self.lemma_advance_by(lifted, start, head, x, Direction::Left);
                } else {
                    self.lemma_advance_by(lifted, start, head, x, Direction::Right);
                }
            }
        }
        assert forall|j: int| 0 <= j < self.queue@.len() implies self.depth@[#[trigger] self.queue@[j]]
            <= self.level(head + 1) + 1 by {
            assert(self.depth@[self.queue@[j]] <= level + 1);
        }
        assert forall|j: int|
            0 <= j < self.queue@.len() && self.depth@[#[trigger] self.queue@[j]] == self.level(
                head + 1,
            ) + 1 implies self.child(lifted, head + 1, 0, self.queue@[j]) by {
            assert(self.depth@[self.queue@[j]] <= level + 1);
            assert(self.child(lifted, head, tried, self.queue@[j]));
        }
    }

    /// Once every position reached is expanded, the search keeps a chain for
    /// the positions reached only.
    proof fn lemma_closed(self, lifted: Board, start: Position, n: nat, to: Position)
        requires
            self.traced(lifted, start),
            self.routed(lifted, start),
            self.exact(lifted, start),
            self.settled(lifted, self.queue@.len() as int),
            kept_chain(lifted, start, n, to).is_some(),
        ensures
            lifted.in_bounds(to),
            self.seen(lifted, to),
        decreases n,
    {
        if n > 0 {
            let below = (n - 1) as nat;
            if kept_chain(lifted, start, below, to).is_some() {
                self.lemma_closed(lifted, start, below, to);
            } else {
                assert forall|x: Position|
                    (#[trigger] kept_chain(lifted, start, below, x)).is_some()
                    implies lifted.in_bounds(x) && self.seen(lifted, x) by {
                    self.lemma_closed(lifted, start, below, x);
                }
                if grown_by(lifted, start, n, to, Direction::Up).is_some() {
                    self.lemma_closed_by(lifted, start, below, to, Direction::Up);
                } else if grown_by(lifted, start, n, to, Direction::Down).is_some() {
                    self.lemma_closed_by(lifted, start, below, to, Direction::Down);
                } else if grown_by(lifted, start, n, to, Direction::Left).is_some() {
                    self.lemma_closed_by(lifted, start, below, to, Direction::Left);
                } else {
                    self.lemma_closed_by(lifted, start, below, to, Direction::Right);
                }
            }
        }
    }

    /// Starts a search with the crate at `start`.
    fn begin(lifted: &Puzzle, start: Position) -> (shove: Shove)
        requires
            lifted@.shaped(),
            lifted@.floor_at(start),
        ensures
            shove.traced(lifted@, start),
            shove.searching(lifted@, start, 0, 0),
            shove.queue@.len() == 1,
            forall|pos: Position|
                lifted@.in_bounds(pos) && #[trigger] shove.seen(lifted@, pos) ==> pos == start,
    {
        let mut marks = blank_marks(lifted.size());
        let at = lifted.offset(start);
        marks.set(at, Mark::Origin);
        let mut queue: Vec<Position> = Vec::new();
        queue.push(start);
        let shove = Shove {
            marks,
            queue,
            depth: Ghost(Map::empty().insert(start, 0nat)),
            route: Ghost(Map::empty().insert(start, Seq::<Direction>::empty())),
            parent: Ghost(Map::empty()),
        };
        proof {
            let board = lifted@;
            assert forall|pos: Position|
                board.in_bounds(pos) && #[trigger] shove.seen(board, pos) implies pos == start by {
                lemma_index(board, pos);
                if board.index(pos) == board.index(start) {
                    lemma_index_injective(board, pos, start);
                }
            }
            assert forall|pos: Position| board.in_bounds(pos) implies #[trigger] shove.link(
                board,
                start,
                pos,
            ) by {
                lemma_index(board, pos);
                if board.index(pos) == board.index(start) {
                    lemma_index_injective(board, pos, start);
                }
            }
            assert(shove.queue@[0] == start);
            assert forall|pos: Position| board.in_bounds(pos) implies #[trigger] shove.hop(
                board,
                start,
                pos,
            ) by {}
            assert forall|pos: Position|
                board.in_bounds(pos) && #[trigger] shove.seen(board, pos) implies shove.queued(
                pos,
                0,
            ) by {
                assert(shove.queue@[0] == pos);
            }
            assert forall|pos: Position|
                board.in_bounds(pos) && #[trigger] shove.seen(board, pos) implies shove.expanded(
                board,
                pos,
            ) || shove.queued(pos, 0) by {
                assert(shove.queue@[0] == pos);
            }
        }
        shove
    }

    /// Where the player stands once the crate has reached `pos`.
    fn standing(&self, lifted: &Puzzle, pos: Position, Ghost(start): Ghost<Position>) -> (player:
        Position)
        requires
            self.traced(lifted@, start),
            lifted@.in_bounds(pos),
            self.seen(lifted@, pos),
        ensures
            player == self.stand(lifted@, pos),
    {
        let at = lifted.offset(pos);
        assert(self.link(lifted@, start, pos));
        match &self.marks[at] {
            Mark::Via(dir) => opposite(*dir).go(pos).unwrap(),
            _ => lifted.player(),
        }
    }

    /// Tries the push of the crate from `prev` in direction `dir`: where both
    /// the tile ahead and the push point are floor, the tile ahead is unseen
    /// and the player can walk to the push point, the tile ahead is marked,
    /// and queued unless it is the destination.
    fn visit(
        &mut self,
        lifted: &Puzzle,
        start: Position,
        dest: Position,
        prev: Position,
        dir: Direction,
        Ghost(head): Ghost<int>,
    ) -> (found: bool)
        requires
            old(self).traced(lifted@, start),
            old(self).searching(lifted@, start, head, rank(dir)),
            prev == old(self).queue@[head],
            !old(self).seen(lifted@, dest),
            lifted@.in_bounds(dest),
        ensures
            final(self).traced(lifted@, start),
            final(self).routed(lifted@, start),
            final(self).exact(lifted@, start),
            final(self).extends(*old(self), lifted@),
            found ==> final(self).seen(lifted@, dest),
            !found ==> !final(self).seen(lifted@, dest) && final(self).searching(
                lifted@,
                start,
                head,
                rank(dir) + 1,
            ) && final(self).open_at(lifted@, prev, dir),
            found == one_push(lifted@, old(self).stand(lifted@, prev), prev, dir, dest),
            found ==> final(self).depth@[dest] == old(self).depth@[prev] + 1,
            unseen_count(final(self).marks@) < unseen_count(old(self).marks@)
                || (final(self).marks@ == old(self).marks@
                && final(self).queue@ == old(self).queue@),
    {
        let ghost board = lifted@;
        let ghost before = *self;
        proof {
            self.lemma_tried_more(board, head, rank(dir));
            assert(before.seen(board, prev));
        }
        let next = match dir.go(prev) {
            Some(next) => next,
            None => {
                return false;
            },
        };
        let point = match opposite(dir).go(prev) {
            Some(point) => point,
            None => {
                return false;
            },
        };
        if !lifted.is_floor(next) || !lifted.is_floor(point) {
            return false;
        }
        let at = lifted.offset(next);
        match &self.marks[at] {
            Mark::Unseen => {},
            _ => {
                return false;
            },
        }
        let player = self.standing(lifted, prev, Ghost(start));
        let trial = lifted.with_tile(prev, Tile::Crate);
        if !can_go_to(player, point, &trial) {
            return false;
        }
        self.marks.set(at, Mark::Via(dir));
        proof {
            self.depth@ = self.depth@.insert(next, self.depth@[prev] + 1);
            self.route@ = self.route@.insert(next, self.route@[prev].push(dir));
            self.parent@ = self.parent@.insert(next, head);
        }
        let found = same_position(next, dest);
        if !found {
            self.queue.push(next);
        }
        proof {
            lemma_mark_counts(before.marks@, at as int, Mark::Via(dir));
            assert forall|pos: Position| board.in_bounds(pos) && pos != next implies self.mark(
                board,
                pos,
            ) == before.mark(board, pos) by {
                lemma_index(board, pos);
                if board.index(pos) == board.index(next) {
                    lemma_index_injective(board, pos, next);
                }
            }
            assert(self.mark(board, next) == Mark::Via(dir));
            assert(before.link(board, start, prev));
            assert(step(spec_opposite(dir), next) == Some(prev));
            assert(self.stand(board, prev) == before.stand(board, prev));
            assert forall|pos: Position| board.in_bounds(pos) implies #[trigger] self.link(
                board,
                start,
                pos,
            ) by {
                assert(before.link(board, start, pos));
                if pos != next {
                    match before.mark(board, pos) {
                        Mark::Via(d) => {
                            let b = step(spec_opposite(d), pos).unwrap();
                            assert(b != next);
                            assert(self.stand(board, b) == before.stand(board, b));
                        },
                        _ => {},
                    }
                }
            }
            assert forall|j: int| 0 <= j < self.queue@.len() implies board.in_bounds(
                #[trigger] self.queue@[j],
            ) && self.seen(board, self.queue@[j]) by {
                if j < before.queue@.len() {
                    assert(self.queue@[j] == before.queue@[j]);
                    assert(before.seen(board, before.queue@[j]));
                }
            }
            self.lemma_mark_search(before, board, start, head, prev, next, dir, !found);
            if !found {
                assert forall|pos: Position|
                    board.in_bounds(pos) && #[trigger] self.seen(board, pos) implies self.expanded(
                    board,
                    pos,
                ) || self.queued(pos, head) by {
                    if pos == next {
                        assert(self.queue@[self.queue@.len() - 1] == pos);
                    } else {
                        assert(before.seen(board, pos));
                        if before.queued(pos, head) {
                            let j = choose|j: int|
                                head <= j < before.queue@.len() && #[trigger] before.queue@[j]
                                    == pos;
                            assert(self.queue@[j] == pos);
                        } else {
                            assert(before.expanded(board, pos));
                            self.lemma_open_kept(before, board, pos, Direction::Up);
                            self.lemma_open_kept(before, board, pos, Direction::Down);
                            self.lemma_open_kept(before, board, pos, Direction::Left);
                            self.lemma_open_kept(before, board, pos, Direction::Right);
                        }
                    }
                }
            }
        }
        found
    }

    /// Searches the crate positions from `start` until `dest` is marked or
    /// nothing is left to expand: positions in the order in which they were
    /// reached, pushes in the order up, down, left, right.
    fn run(lifted: &Puzzle, start: Position, dest: Position) -> (out: (bool, Shove))
        requires
            lifted@.shaped(),
            lifted@.floor_at(start),
            lifted@.floor_at(dest),
            start != dest,
        ensures
            out.1.traced(lifted@, start),
            out.1.routed(lifted@, start),
            out.0 ==> out.1.seen(lifted@, dest),
            out.0 ==> kept_chain(lifted@, start, out.1.depth@[dest], dest) == Some(
                out.1.route@[dest],
            ),
            !out.0 ==> forall|n: nat| (#[trigger] kept_chain(lifted@, start, n, dest)).is_none(),
            any_push(lifted@, lifted@.player, start, dest) ==> out.0 && out.1.depth@[dest] == 1,
    {
        let ghost board = lifted@;
        let mut shove = Shove::begin(lifted, start);
        assert(shove.queue@[0] == start);
        let mut head: usize = 0;
        while head < shove.queue.len()
            invariant
                board == lifted@,
                board.shaped(),
                board.in_bounds(dest),
                shove.traced(board, start),
                shove.routed(board, start),
                shove.exact(board, start),
                shove.settled(board, head as int),
                head < shove.queue@.len() ==> shove.searching(board, start, head as int, 0),
                0 <= head <= shove.queue@.len(),
                shove.queue@.len() > 0,
                shove.queue@[0] == start,
                head > 0 ==> !any_push(board, board.player, start, dest),
                !shove.seen(board, dest),
            decreases unseen_count(shove.marks@), shove.queue@.len() - head,
        {
            let prev = shove.queue[head];
            let ghost f0 = shove;
            assert(shove.stand(board, start) == board.player);
            if shove.visit(lifted, start, dest, prev, Direction::Up, Ghost(head as int)) {
                return (true, shove);
            }
            let ghost f1 = shove;
            assert(f0.seen(board, prev) && f0.seen(board, start));
            if shove.visit(lifted, start, dest, prev, Direction::Down, Ghost(head as int)) {
                return (true, shove);
            }
            let ghost f2 = shove;
            assert(f1.seen(board, prev) && f1.seen(board, start));
            if shove.visit(lifted, start, dest, prev, Direction::Left, Ghost(head as int)) {
                return (true, shove);
            }
            let ghost f3 = shove;
            assert(f2.seen(board, prev) && f2.seen(board, start));
            if shove.visit(lifted, start, dest, prev, Direction::Right, Ghost(head as int)) {
                return (true, shove);
            }
            proof {
                assert(f3.seen(board, prev) && f3.seen(board, start));
                shove.lemma_open_kept(f3, board, prev, Direction::Left);
                shove.lemma_extends_chain(f3, f2, board);
                shove.lemma_open_kept(f2, board, prev, Direction::Down);
                shove.lemma_extends_chain(f2, f1, board);
                shove.lemma_open_kept(f1, board, prev, Direction::Up);
                assert(shove.expanded(board, prev));
                assert(shove.queue@[head as int] == prev);
                assert forall|pos: Position|
                    board.in_bounds(pos) && #[trigger] shove.seen(board, pos) implies shove.expanded(
                    board,
                    pos,
                ) || shove.queued(pos, head + 1) by {
                    if !shove.expanded(board, pos) {
                        let j = choose|j: int|
                            head <= j < shove.queue@.len() && #[trigger] shove.queue@[j] == pos;
                        assert(j != head);
                    }
                }
                if head + 1 < shove.queue@.len() {
                    shove.lemma_advance(board, start, head as int, 4);
                }
            }
            head += 1;
        }
        proof {
            assert forall|n: nat| (#[trigger] kept_chain(board, start, n, dest)).is_none() by {
                if kept_chain(board, start, n, dest).is_some() {
                    shove.lemma_closed(board, start, n, dest);
                }
            }
        }
        (false, shove)
    }

    /// The board with the crate at `pos` and the player where the push to
    /// `pos` left them.
    spec fn placed(self, lifted: Board, pos: Position) -> Board {
        lifted.with_tile(pos, Tile::Crate).with_player(self.stand(lifted, pos))
    }

    /// Link `i` of a chain of crate positions: the back-pointer of the next
    /// position is the push `moves[i]` from this one.
    spec fn chained(
        self,
        lifted: Board,
        nodes: Seq<Position>,
        moves: Seq<Direction>,
        i: int,
    ) -> bool {
        &&& lifted.in_bounds(nodes[i])
        &&& self.seen(lifted, nodes[i])
        &&& lifted.in_bounds(nodes[i + 1])
        &&& self.mark(lifted, nodes[i + 1]) == Mark::Via(moves[i])
        &&& step(spec_opposite(moves[i]), nodes[i + 1]) == Some(nodes[i])
    }

    /// A position that was reached is a floor tile of the board without the
    /// crate.
    proof fn lemma_seen_floor(self, lifted: Board, start: Position, pos: Position)
        requires
            self.traced(lifted, start),
            lifted.in_bounds(pos),
            self.seen(lifted, pos),
        ensures
            lifted.floor_at(pos),
    {
        assert(self.link(lifted, start, pos));
    }
}

/// One push: with the crate at `from` and the player on the push point, the
/// move in direction `dir` puts the crate on `to` and the player on `from`.
proof fn lemma_shove_once(
    lifted: Board,
    current: Board,
    from: Position,
    to: Position,
    dir: Direction,
    point: Position,
)
    requires
        lifted.shaped(),
        current == lifted.with_tile(from, Tile::Crate).with_player(current.player),
        lifted.floor_at(from),
        lifted.floor_at(to),
        lifted.floor_at(point),
        step(spec_opposite(dir), from) == Some(point),
        step(spec_opposite(dir), to) == Some(from),
    ensures
        current.with_player(point).moved(dir) == Some(
            lifted.with_tile(to, Tile::Crate).with_player(from),
        ),
{
    let standing = current.with_player(point);
    assert(step(dir, point) == Some(from));
    assert(step(dir, from) == Some(to));
    assert(from != to);
    lemma_index(lifted, from);
    lemma_index(lifted, to);
    lemma_with_tile(lifted, from, Tile::Crate, from);
    lemma_with_tile(lifted, from, Tile::Crate, to);
    assert(standing.at(from) == Tile::Crate);
    assert(standing.floor_at(to));
    let after = standing.with_tile(from, Tile::Floor).with_tile(to, Tile::Crate).with_player(from);
    assert(standing.moved(dir) == Some(after));
    assert(after.tiles =~= lifted.tiles.update(lifted.index(to), Tile::Crate));
}

/// The crate at `from` can be pushed one step in direction `dir`: the tile
/// ahead is floor and the player can walk to the tile behind.
pub open spec fn pushable(board: Board, from: Position, dir: Direction) -> bool {
    match (step(dir, from), step(spec_opposite(dir), from)) {
        (Some(ahead), Some(point)) => board.floor_at(ahead) && connected(
            board,
            board.player,
            point,
        ),
        _ => false,
    }
}

/// The moves that push the crate at `from` once in direction `dir`: the
/// least walk to the push point, then the push.
pub open spec fn one_push_plan(board: Board, from: Position, dir: Direction) -> Seq<Direction> {
    least_walk(board, board.player, step(spec_opposite(dir), from).unwrap()).push(dir)
}

/// The plan of a single push is the least walk to the push point and the
/// push.
pub proof fn lemma_one_push_plan(board: Board, from: Position, dir: Direction)
    ensures
        push_plan(board, from, seq![dir]) == one_push_plan(board, from, dir),
{
    reveal_with_fuel(push_plan, 2);
    reveal_with_fuel(pushed_along, 2);
    let dirs = seq![dir];
    assert(dirs.drop_last() =~= Seq::<Direction>::empty());
    assert(dirs.last() == dir);
    assert(Seq::<Direction>::empty() + one_push_plan(board, from, dir) =~= one_push_plan(
        board,
        from,
        dir,
    ));
}

/// Where one push can be made on the board, it can be made on the board
/// without the crate, with the crate thought back in.
proof fn lemma_pushable_lifted(board: Board, from: Position, dir: Direction, to: Position)
    requires
        board.shaped(),
        board.crate_at(from),
        step(dir, from) == Some(to),
        pushable(board, from, dir),
    ensures
        one_push(board.with_tile(from, Tile::Floor), board.player, from, dir, to),
{
    let lifted = board.with_tile(from, Tile::Floor);
    let point = step(spec_opposite(dir), from).unwrap();
    lemma_index(board, from);
    lemma_with_tile(board, from, Tile::Floor, to);
    lemma_with_tile(board, from, Tile::Floor, point);
    assert(lifted.with_tile(from, Tile::Crate).tiles =~= board.tiles);
    lemma_connected_grid(lifted.with_tile(from, Tile::Crate), board, board.player, point);
}

/// Plans the pushes that bring the crate at `start` to `destination`, and
/// returns the player's full move list: for each push the least walk to the
/// push point, then the push. The pushes are found by a breadth-first search
/// over the positions of the crate, which keeps for each position the first
/// chain of pushes that reaches it. An empty list when the crate is there
/// already; `None` when `start` holds no crate, when `destination` is no
/// floor tile, or when the search finds no pushes.
pub fn push_to(start: Position, destination: Position, puzzle: &Puzzle) -> (plan: Option<
    Vec<Direction>,
>)
    requires
        puzzle@.wf(),
    ensures
        match planned(puzzle@, start, destination) {
            Some(moves) => plan.is_some() && plan.unwrap()@ == moves,
            None => plan.is_none(),
        },
        plan.is_some() ==> puzzle@.replay(plan.unwrap()@).is_some() && puzzle@.replay(
            plan.unwrap()@,
        ).unwrap().wf(),
        plan.is_some() && start != destination ==> pushes(
            puzzle@,
            start,
            destination,
            plan.unwrap()@,
        ) && plan.unwrap()@.len() > 0 && pushed_along(
            start,
            push_chain(puzzle@, start, destination).unwrap(),
        ) == Some(destination),
        forall|dir: Direction|
            puzzle@.crate_at(start) && step(dir, start) == Some(destination) && #[trigger] pushable(
                puzzle@,
                start,
                dir,
            ) ==> plan.is_some() && plan.unwrap()@ == one_push_plan(puzzle@, start, dir),
{
    if !puzzle.is_crate(start) {
        return None;
    }
    if same_position(start, destination) {
        return Some(Vec::new());
    }
    if !puzzle.is_floor(destination) {
        return None;
    }
    let lifted = puzzle.with_tile(start, Tile::Floor);
    let ghost board = lifted@;
    proof {
        lemma_with_tile(puzzle@, start, Tile::Floor, start);
        lemma_with_tile(puzzle@, start, Tile::Floor, destination);
    }
    let (found, shove) = Shove::run(&lifted, start, destination);
    if !found {
        proof {
            assert(push_chain(puzzle@, start, destination).is_none());
            assert forall|dir: Direction|
                step(dir, start) == Some(destination) && #[trigger] pushable(
                    puzzle@,
                    start,
                    dir,
                ) implies false by {
                lemma_pushable_lifted(puzzle@, start, dir, destination);
            }
        }
        return None;
    }
    let mut crate_moves: VecDeque<Direction> = VecDeque::new();
    let ghost mut nodes: Seq<Position> = seq![destination];
    let mut next = destination;
    let mut tracing = true;
    assert(shove.route@[next] + crate_moves@ =~= shove.route@[destination]);
    while tracing
        invariant
            board == lifted@,
            shove.traced(board, start),
            board.in_bounds(next),
            shove.seen(board, next),
            nodes.len() == crate_moves@.len() + 1,
            crate_moves@.len() + shove.depth@[next] == shove.depth@[destination],
            shove.routed(board, start),
            shove.route@[next] + crate_moves@ == shove.route@[destination],
            nodes[0] == next,
            nodes.last() == destination,
            forall|i: int|
                0 <= i < crate_moves@.len() ==> #[trigger] shove.chained(
                    board,
                    nodes,
                    crate_moves@,
                    i,
                ),
            !tracing ==> next == start,
        decreases shove.depth@[next], (if tracing { 1nat } else { 0nat }),
    {
        let at = lifted.offset(next);
        assert(shove.link(board, start, next));
        match &shove.marks[at] {
            Mark::Via(direction) => {
                let direction = *direction;
                let ghost old_nodes = nodes;
                let ghost old_moves = crate_moves@;
                let back = opposite(direction).go(next);
                next = back.unwrap();
                crate_moves.push_front(direction);
                proof {
                    assert(shove.hop(board, start, old_nodes[0]));
                    assert(shove.route@[next] + crate_moves@ =~= shove.route@[old_nodes[0]]
                        + old_moves);
                    nodes = seq![next] + nodes;
                    assert forall|i: int| 0 <= i < crate_moves@.len() implies #[trigger] shove.chained(
                        board,
                        nodes,
                        crate_moves@,
                        i,
                    ) by {
                        if i > 0 {
                            assert(shove.chained(board, old_nodes, old_moves, i - 1));
                            assert(nodes[i] == old_nodes[i - 1]);
                            assert(nodes[i + 1] == old_nodes[i]);
                            assert(crate_moves@[i] == old_moves[i - 1]);
                        } else {
                            assert(nodes[1] == old_nodes[0]);
                        }
                    }
                }
            },
            _ => {
                tracing = false;
            },
        }
    }
    let mut assembled: Vec<Direction> = Vec::new();
    let mut current = puzzle.clone();
    let mut last_position = start;
    let mut i: usize = 0;
    assert(crate_moves@.len() == shove.depth@[destination]);
    proof {
        assert(shove.hop(board, start, start));
        assert(crate_moves@ =~= shove.route@[destination]);
        lemma_push_chain(puzzle@, start, shove.depth@[destination], destination);
    }
    let ghost chain = crate_moves@;
    proof {
        lemma_index(puzzle@, start);
        assert(puzzle@.tiles =~= board.tiles.update(board.index(start), Tile::Crate));
        assert(current@ == shove.placed(board, start));
        assert(puzzle@.replay(assembled@) == Some(current@));
    }
    while i < crate_moves.len()
        invariant
            board == lifted@,
            board == puzzle@.with_tile(start, Tile::Floor),
            puzzle@.wf(),
            shove.traced(board, start),
            nodes.len() == crate_moves@.len() + 1,
            nodes[0] == start,
            nodes.last() == destination,
            crate_moves@.len() == shove.depth@[destination],
            crate_moves@ == chain,
            push_chain(puzzle@, start, destination) == Some(chain),
            forall|j: int|
                0 <= j < crate_moves@.len() ==> #[trigger] shove.chained(
                    board,
                    nodes,
                    crate_moves@,
                    j,
                ),
            0 <= i <= crate_moves@.len(),
            last_position == nodes[i as int],
            board.in_bounds(last_position),
            shove.seen(board, last_position),
            current@.wf(),
            current@ == shove.placed(board, last_position),
            puzzle@.replay(assembled@) == Some(current@),
            assembled@.len() >= i,
            assembled@ == push_plan(puzzle@, start, crate_moves@.take(i as int)),
            pushed_along(start, crate_moves@.take(i as int)) == Some(last_position),
        decreases crate_moves@.len() - i,
    {
        let dir = crate_moves[i];
        let ghost from = nodes[i as int];
        let ghost to = nodes[i + 1];
        let ghost base = assembled@;
        let ghost cur = current@;
        proof {
            assert(shove.chained(board, nodes, crate_moves@, i as int));
            assert(shove.link(board, start, to));
            shove.lemma_seen_floor(board, start, from);
        }
        let point = opposite(dir).go(last_position).unwrap();
        proof {
            lemma_connected_grid(board.with_tile(from, Tile::Crate), cur, cur.player, point);
        }
        let path = go_to(current.player(), point, &current).unwrap();
        let walked = list_moves(&path);
        append_moves(&mut assembled, &walked);
        proof {
            assert(crate_moves@.take(i + 1).drop_last() =~= crate_moves@.take(i as int));
            assert(crate_moves@.take(i + 1).last() == dir);
            assert(base + path@.push(dir) =~= (base + path@).push(dir));
            lemma_walk_replay(cur, cur, path@, point);
            lemma_replay_concat(puzzle@, base, path@);
            lemma_shove_once(board, cur, from, to, dir, point);
            lemma_replay_push(puzzle@, base + path@, dir);
        }
        let stepped = current.replay(&walked).unwrap();
        let pushed = stepped.move_player(dir);
        current = pushed.unwrap();
        assembled.push(dir);
        last_position = dir.go(last_position).unwrap();
        i += 1;
    }
    proof {
        assert(current@.tiles == puzzle@.tiles.update(puzzle@.index(start), Tile::Floor).update(
            puzzle@.index(destination),
            Tile::Crate,
        ));
        assert(crate_moves@.take(i as int) =~= crate_moves@);
        assert(assembled@ == push_plan(puzzle@, start, crate_moves@));
        assert forall|dir: Direction|
            step(dir, start) == Some(destination) && #[trigger] pushable(
                puzzle@,
                start,
                dir,
            ) implies assembled@ == one_push_plan(puzzle@, start, dir) by {
            lemma_pushable_lifted(puzzle@, start, dir, destination);
            assert(crate_moves@.len() == 1);
            assert(shove.chained(board, nodes, crate_moves@, 0));
            assert(crate_moves@[0] == dir);
            assert(crate_moves@ =~= seq![dir]);
            lemma_one_push_plan(puzzle@, start, dir);
        }
    }
    Some(assembled)
}

/// A crate that stands on its destination needs no move.
pub proof fn law_push_to_self(board: Board, pos: Position)
    requires
        board.wf(),
        board.crate_at(pos),
    ensures
        board.replay(Seq::<Direction>::empty()) == Some(board),
        board.replay(Seq::<Direction>::empty()).unwrap().crate_at(pos),
{
}

/// After a plan that pushes the crate at `from` to another tile `to`, `to`
/// carries a crate and `from` is a floor tile.
pub proof fn law_push_moves_crate(
    board: Board,
    from: Position,
    to: Position,
    moves: Seq<Direction>,
)
    requires
        board.wf(),
        board.crate_at(from),
        board.floor_at(to),
        pushes(board, from, to, moves),
    ensures
        board.replay(moves).unwrap().crate_at(to),
        board.replay(moves).unwrap().floor_at(from),
{
    let after = board.replay(moves).unwrap();
    lemma_index(board, from);
    lemma_index(board, to);
    if board.index(from) == board.index(to) {
        lemma_index_injective(board, from, to);
    }
}

} // verus!
