use sokoban::Tile;
use sokoban_fuzz::parse::{parse_deal, parse_grid, parse_rows, read_tile, Notation};
use sokoban_fuzz::puzzle::find_crates;

fn rows(text: &[&str]) -> Vec<Vec<u8>> {
    text.iter().map(|line| line.as_bytes().to_vec()).collect()
}

#[test]
fn file_rows_are_padded_with_floor() {
    let puzzle = parse_rows(&rows(&["#####", "#@$.#", "#", "#####"])).unwrap();
    assert_eq!((puzzle.rows(), puzzle.cols()), (4, 5));
    assert_eq!(puzzle.player(), (1, 1));
    assert_eq!(puzzle.targets(), &vec![(1, 3)]);
    assert_eq!(find_crates(&puzzle), vec![(1, 2)]);
    assert_eq!(puzzle.tile((1, 1)), Tile::Floor);
    assert_eq!(puzzle.tile((1, 3)), Tile::Floor);
    assert_eq!(puzzle.tile((2, 0)), Tile::Wall);
    for c in 1..5 {
        assert_eq!(puzzle.tile((2, c)), Tile::Floor);
    }
    assert_eq!(puzzle.tile((3, 4)), Tile::Wall);
}

#[test]
fn file_takes_the_first_player_mark() {
    let puzzle = parse_rows(&rows(&["#@ @#", "#. .#"])).unwrap();
    assert_eq!(puzzle.player(), (0, 1));
    assert_eq!(puzzle.targets(), &vec![(1, 1), (1, 3)]);
    assert_eq!(puzzle.tile((0, 3)), Tile::Floor);
}

#[test]
fn file_refuses_what_is_no_puzzle() {
    assert!(parse_rows(&rows(&[])).is_none());
    assert!(parse_rows(&rows(&["", ""])).is_none());
    assert!(parse_rows(&rows(&["#####", "# $.#"])).is_none());
    assert!(parse_rows(&rows(&["#####", "#@x.#"])).is_none());
    assert!(parse_rows(&rows(&["#####", "#@$*#"])).is_none());
}

#[test]
fn deal_is_twelve_rows_of_eighteen() {
    let mut deal = vec![b'w'; 12 * 18];
    deal[19] = b'm';
    deal[20] = b'o';
    deal[21] = b'E';
    deal[22] = b'e';
    deal[23] = b'O';
    let puzzle = parse_deal(&deal).unwrap();
    assert_eq!((puzzle.rows(), puzzle.cols()), (12, 18));
    assert_eq!(puzzle.player(), (1, 1));
    assert_eq!(puzzle.targets(), &vec![(1, 3), (1, 5)]);
    assert_eq!(find_crates(&puzzle), vec![(1, 2), (1, 5)]);
    assert_eq!(puzzle.tile((1, 4)), Tile::Floor);
    assert_eq!(puzzle.tile((0, 0)), Tile::Wall);
    deal[19] = b'M';
    let puzzle = parse_deal(&deal).unwrap();
    assert_eq!(puzzle.targets(), &vec![(1, 1), (1, 3), (1, 5)]);
    assert_eq!(puzzle.player(), (1, 1));
}

#[test]
fn deal_refuses_what_is_no_puzzle() {
    let mut deal = vec![b'w'; 12 * 18];
    assert!(parse_deal(&deal).is_none());
    deal[19] = b'm';
    assert!(parse_deal(&deal).is_some());
    deal[20] = b'x';
    assert!(parse_deal(&deal).is_none());
    deal[20] = b'W';
    assert!(parse_deal(&deal).is_none());
    deal[20] = b'e';
    deal.push(b'w');
    assert!(parse_deal(&deal).is_none());
    deal.truncate(12 * 18 - 1);
    assert!(parse_deal(&deal).is_none());
}

#[test]
fn grid_needs_columns() {
    assert!(parse_grid(Notation::File, &vec![], 0, 0).is_none());
    assert!(parse_grid(Notation::File, &vec![b'@'], 1, 0).is_none());
    assert!(parse_grid(Notation::File, &vec![b'@'], 1, 1).is_some());
    assert!(parse_grid(Notation::File, &vec![b'@', b'$'], 1, 2).is_some());
    assert!(parse_grid(Notation::File, &vec![b'@', b'$'], 2, 1).is_some());
    assert!(parse_grid(Notation::File, &vec![b'@', b'$'], 2, 2).is_none());
}

#[test]
fn bytes_stand_for_tiles() {
    assert_eq!(read_tile(Notation::File, b' '), Some(Tile::Floor));
    assert_eq!(read_tile(Notation::File, b'@'), Some(Tile::Floor));
    assert_eq!(read_tile(Notation::File, b'.'), Some(Tile::Floor));
    assert_eq!(read_tile(Notation::File, b'#'), Some(Tile::Wall));
    assert_eq!(read_tile(Notation::File, b'$'), Some(Tile::Crate));
    assert_eq!(read_tile(Notation::File, b'w'), None);
    assert_eq!(read_tile(Notation::Deal, b'w'), Some(Tile::Wall));
    assert_eq!(read_tile(Notation::Deal, b'e'), Some(Tile::Floor));
    assert_eq!(read_tile(Notation::Deal, b'E'), Some(Tile::Floor));
    assert_eq!(read_tile(Notation::Deal, b'm'), Some(Tile::Floor));
    assert_eq!(read_tile(Notation::Deal, b'M'), Some(Tile::Floor));
    assert_eq!(read_tile(Notation::Deal, b'o'), Some(Tile::Crate));
    assert_eq!(read_tile(Notation::Deal, b'O'), Some(Tile::Crate));
    assert_eq!(read_tile(Notation::Deal, b'#'), None);
}
