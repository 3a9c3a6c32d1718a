use lvlgen::cell::Cell;
use lvlgen::text::{guess_size, parse_game_grid, GridError};

fn chars(s: &str) -> Vec<char> {
    s.chars().collect()
}

#[test]
fn cell_codec_round_trips() {
    let all = [
        Cell::Unreachable, Cell::Reachable, Cell::BoulderInHole,
        Cell::Hole, Cell::Block, Cell::Boulder,
    ];
    let text = [' ', '.', '@', 'O', '#', '*'];
    for (cell, ch) in all.iter().zip(text.iter()) {
        assert_eq!(cell.to_char(), *ch);
        assert_eq!(Cell::try_from_char(*ch), Some(*cell));
    }
    assert_eq!(Cell::try_from_char('x'), None);
}

#[test]
fn parses_a_framed_board() {
    let text = chars("seed = 3\n+---+\n|#*.|\n| O |\n|@##|\n+---+\n");
    let (tractor, grid) = parse_game_grid(&text).unwrap();
    assert_eq!(tractor, 2);
    assert_eq!(
        grid,
        vec![
            Cell::Block, Cell::Boulder, Cell::Unreachable,
            Cell::Unreachable, Cell::Hole, Cell::Unreachable,
            Cell::BoulderInHole, Cell::Block, Cell::Block,
        ]
    );
    assert_eq!(guess_size(grid.len()), Some(3));
}

#[test]
fn parses_an_unframed_board() {
    let text = chars("#*.\n O \n@##\n");
    let (tractor, grid) = parse_game_grid(&text).unwrap();
    assert_eq!(tractor, 2);
    assert_eq!(grid.len(), 9);
}

#[test]
fn unknown_character_is_refused() {
    let text = chars("+---+\n|#x.|\n| O |\n|@#y|\n+---+\n");
    assert_eq!(parse_game_grid(&text), Err(GridError::UnknownCharacter('x')));
}

#[test]
fn missing_agent_is_refused() {
    let text = chars("+---+\n|#* |\n| O |\n|@##|\n+---+\n");
    assert_eq!(parse_game_grid(&text), Err(GridError::MissingAgent));
}

#[test]
fn duplicate_agent_is_refused() {
    let text = chars("+---+\n|#*.|\n| O.|\n|@##|\n+---+\n");
    assert_eq!(parse_game_grid(&text), Err(GridError::DuplicateAgent));
}

#[test]
fn board_side_from_cell_count() {
    assert_eq!(guess_size(9), Some(3));
    assert_eq!(guess_size(16), Some(4));
    assert_eq!(guess_size(100), Some(10));
    assert_eq!(guess_size(4), None);
    assert_eq!(guess_size(8), None);
    assert_eq!(guess_size(10), None);
    assert_eq!(guess_size(0), None);
    assert_eq!(guess_size(1), None);
}
