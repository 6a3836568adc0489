//! Puzzles in their two written forms: a text file of rows, and the deal of
//! a remote server.

use vstd::prelude::*;
use sokoban::Tile;
use crate::grid::Position;
use crate::puzzle::{Board, Puzzle};

verus! {

/// A written form of a puzzle.
#[derive(Clone, Copy, Debug, PartialEq, Eq, Structural)]
pub enum Notation {
    /// Rows of text: `#` wall, `$` crate, `@` player, `.` target, blank floor.
    File,
    /// One line of 12 rows of 18 letters: `w` wall, `o` crate, `m` player,
    /// `e` floor; a capital letter marks a target.
    Deal,
}

/// The tile that a byte stands for, if any.
pub open spec fn tile_of(notation: Notation, byte: u8) -> Option<Tile> {
    match notation {
        Notation::File => if byte == 32 || byte == 64 || byte == 46 {
            Some(Tile::Floor)
        } else if byte == 35 {
            Some(Tile::Wall)
        } else if byte == 36 {
            Some(Tile::Crate)
        } else {
            None
        },
        Notation::Deal => if byte == 119 {
            Some(Tile::Wall)
        } else if byte == 101 || byte == 69 || byte == 109 || byte == 77 {
            Some(Tile::Floor)
        } else if byte == 111 || byte == 79 {
            Some(Tile::Crate)
        } else {
            None
        },
    }
}

/// Whether a byte marks the player.
pub open spec fn is_player(notation: Notation, byte: u8) -> bool {
    match notation {
        Notation::File => byte == 64,
        Notation::Deal => byte == 109 || byte == 77,
    }
}

/// Whether a byte marks a target.
pub open spec fn is_target(notation: Notation, byte: u8) -> bool {
    match notation {
        Notation::File => byte == 46,
        Notation::Deal => 65 <= byte <= 90,
    }
}

/// The position of a row-major index in a grid of `cols` columns.
pub open spec fn cell(i: int, cols: usize) -> Position {
    ((i / (cols as int)) as usize, (i % (cols as int)) as usize)
}

/// Every byte stands for a tile.
pub open spec fn legal(notation: Notation, raw: Seq<u8>) -> bool {
    forall|i: int| 0 <= i < raw.len() ==> (#[trigger] tile_of(notation, raw[i])).is_some()
}

/// The tiles that the bytes stand for.
pub open spec fn tiles_of(notation: Notation, raw: Seq<u8>) -> Seq<Tile> {
    Seq::new(raw.len(), |i: int| tile_of(notation, raw[i]).unwrap())
}

/// The index of the first byte from `i` on that marks the player; the
/// length where none does.
pub open spec fn first_player(notation: Notation, raw: Seq<u8>, i: int) -> int
    decreases raw.len() - i,
{
    if i >= raw.len() || i < 0 {
        raw.len() as int
    } else if is_player(notation, raw[i]) {
        i
    } else {
        first_player(notation, raw, i + 1)
    }
}

/// The positions of the target marks among the first `n` bytes, in order.
pub open spec fn marked_upto(notation: Notation, raw: Seq<u8>, cols: usize, n: int) -> Seq<
    Position,
>
    decreases n,
{
    if n <= 0 {
        Seq::empty()
    } else if is_target(notation, raw[n - 1]) {
        marked_upto(notation, raw, cols, n - 1).push(cell(n - 1, cols))
    } else {
        marked_upto(notation, raw, cols, n - 1)
    }
}

/// What the bytes say, apart from whether it is a valid state.
pub open spec fn written(notation: Notation, raw: Seq<u8>, rows: usize, cols: usize) -> Board {
    Board {
        rows,
        cols,
        tiles: tiles_of(notation, raw),
        player: cell(first_player(notation, raw, 0), cols),
        targets: marked_upto(notation, raw, cols, raw.len() as int),
    }
}

/// The puzzle that the bytes stand for: every byte a tile, the player at the
/// first player mark, the targets at the target marks, and all of it a valid
/// state.
pub open spec fn parsed(notation: Notation, raw: Seq<u8>, rows: usize, cols: usize) -> Option<
    Board,
> {
    if legal(notation, raw) && first_player(notation, raw, 0) < raw.len() && written(
        notation,
        raw,
        rows,
        cols,
    ).wf() {
        Some(written(notation, raw, rows, cols))
    } else {
        None
    }
}

/// The tile that a byte stands for, if any.
pub fn read_tile(notation: Notation, byte: u8) -> (tile: Option<Tile>)
    ensures
        tile == tile_of(notation, byte),
{
    match notation {
        Notation::File => if byte == 32 || byte == 64 || byte == 46 {
            Some(Tile::Floor)
        } else if byte == 35 {
            Some(Tile::Wall)
        } else if byte == 36 {
            Some(Tile::Crate)
        } else {
            None
        },
        Notation::Deal => if byte == 119 {
            Some(Tile::Wall)
        } else if byte == 101 || byte == 69 || byte == 109 || byte == 77 {
            Some(Tile::Floor)
        } else if byte == 111 || byte == 79 {
            Some(Tile::Crate)
        } else {
            None
        },
    }
}

/// Reads a grid of `rows` by `cols` cells from its bytes in row-major order.
pub fn parse_grid(notation: Notation, raw: &Vec<u8>, rows: usize, cols: usize) -> (made: Option<
    Puzzle,
>)
    ensures
        match parsed(notation, raw@, rows, cols) {
            Some(board) => made.is_some() && made.unwrap()@ == board,
            None => made.is_none(),
        },
{
    if cols == 0 {
        proof {
            let board = written(notation, raw@, rows, cols);
            assert(rows * 0 == 0) by (nonlinear_arith);
            if raw@.len() == 0 {
                assert(first_player(notation, raw@, 0) == 0);
            }
        }
        return None;
    }
    let mut tiles: Vec<Tile> = Vec::new();
    let mut targets: Vec<Position> = Vec::new();
    let mut player: Option<Position> = None;
    let mut i: usize = 0;
    while i < raw.len()
        invariant
            cols > 0,
            0 <= i <= raw.len(),
            tiles@.len() == i,
            forall|j: int| 0 <= j < i ==> tile_of(notation, raw@[j]) == Some(#[trigger] tiles@[j]),
            targets@ == marked_upto(notation, raw@, cols, i as int),
            match player {
                Some(pos) => first_player(notation, raw@, 0) < i && pos == cell(
                    first_player(notation, raw@, 0),
                    cols,
                ),
                None => first_player(notation, raw@, 0) == first_player(notation, raw@, i as int),
            },
        decreases raw.len() - i,
    {
        let byte = raw[i];
        match read_tile(notation, byte) {
            Some(tile) => {
                tiles.push(tile);
            },
            None => {
                return None;
            },
        }
        let here = (i / cols, i % cols);
        let marks_player = match notation {
            Notation::File => byte == 64,
            Notation::Deal => byte == 109 || byte == 77,
        };
        if marks_player && player.is_none() {
            player = Some(here);
        }
        let marks_target = match notation {
            Notation::File => byte == 46,
            Notation::Deal => 65 <= byte && byte <= 90,
        };
        if marks_target {
            targets.push(here);
        }
        i += 1;
    }
    proof {
        assert(tiles@ =~= tiles_of(notation, raw@));
        assert forall|j: int| 0 <= j < raw@.len() implies (#[trigger] tile_of(
            notation,
            raw@[j],
        )).is_some() by {
            assert(tile_of(notation, raw@[j]) == Some(tiles@[j]));
        }
    }
    match player {
        Some(player) => Puzzle::new(tiles, player, targets, rows, cols),
        None => None,
    }
}

/// Reads the deal of the remote server: 12 rows of 18 letters in one line.
pub fn parse_deal(deal: &Vec<u8>) -> (made: Option<Puzzle>)
    ensures
        match parsed(Notation::Deal, deal@, 12, 18) {
            Some(board) => made.is_some() && made.unwrap()@ == board,
            None => made.is_none(),
        },
{
    parse_grid(Notation::Deal, deal, 12, 18)
}

/// The length of the longest row.
pub open spec fn width(rows: Seq<Vec<u8>>) -> nat
    decreases rows.len(),
{
    if rows.len() == 0 {
        0
    } else if rows.last()@.len() > width(rows.drop_last()) {
        rows.last()@.len()
    } else {
        width(rows.drop_last())
    }
}

/// A row filled up with blanks to the given width.
pub open spec fn padded(row: Seq<u8>, width: nat) -> Seq<u8> {
    Seq::new(width, |c: int| if c < row.len() { row[c] } else { 32u8 })
}

/// The rows, each filled up to the given width, one after the other.
pub open spec fn flattened(rows: Seq<Vec<u8>>, width: nat) -> Seq<u8>
    decreases rows.len(),
{
    if rows.len() == 0 {
        Seq::empty()
    } else {
        flattened(rows.drop_last(), width) + padded(rows.last()@, width)
    }
}

/// Reads a puzzle from the lines of a text file: as many rows as lines, as
/// many columns as the longest line has bytes, shorter lines filled up with
/// floor.
pub fn parse_rows(rows: &Vec<Vec<u8>>) -> (made: Option<Puzzle>)
    ensures
        match parsed(
            Notation::File,
            flattened(rows@, width(rows@)),
            rows@.len() as usize,
            width(rows@) as usize,
        ) {
            Some(board) => made.is_some() && made.unwrap()@ == board,
            None => made.is_none(),
        },
{
    let mut dim_c: usize = 0;
    let mut r: usize = 0;
    while r < rows.len()
        invariant
            0 <= r <= rows.len(),
            dim_c == width(rows@.take(r as int)),
        decreases rows.len() - r,
    {
        assert(rows@.take(r + 1).drop_last() =~= rows@.take(r as int));
        if rows[r].len() > dim_c {
            dim_c = rows[r].len();
        }
        r += 1;
    }
    assert(rows@.take(r as int) =~= rows@);
    let mut raw: Vec<u8> = Vec::new();
    let mut r: usize = 0;
    while r < rows.len()
        invariant
            0 <= r <= rows.len(),
            dim_c == width(rows@),
            raw@ == flattened(rows@.take(r as int), dim_c as nat),
        decreases rows.len() - r,
    {
        let row = &rows[r];
        let ghost before = raw@;
        let mut c: usize = 0;
        while c < dim_c
            invariant
                0 <= c <= dim_c,
                raw@ == before + padded(row@, c as nat),
            decreases dim_c - c,
        {
            let byte = if c < row.len() {
                row[c]
            } else {
                32u8
            };
            raw.push(byte);
            assert(raw@ =~= before + padded(row@, (c + 1) as nat));
            c += 1;
        }
        assert(rows@.take(r + 1).drop_last() =~= rows@.take(r as int));
        r += 1;
    }
    assert(rows@.take(r as int) =~= rows@);
    parse_grid(Notation::File, &raw, rows.len(), dim_c)
}

} // verus!
