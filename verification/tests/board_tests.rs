use boggle::board::calc_board_size;
use boggle::board::get_clean_board;
use boggle::board::Board;
use boggle::board::BoardError;

fn tokens(text: &str) -> Vec<String> {
    text.split_whitespace().map(|s| s.to_string()).collect()
}

#[test]
fn test_get_clean_board() {
    let letters: String = String::from("a b c d qu q d e fff f");
    let board: Vec<char> = get_clean_board(&tokens(&letters));
    assert_eq!(board.len(), 9);
    assert_eq!(board[0], 'a');
    assert_eq!(board[4], 'q');
    assert_eq!(board[8], 'f');
}

#[test]
fn test_calc_board_values() {
    let board: Vec<char> = vec!['a', 'b', 'c', 'd'];
    let size: i32 = calc_board_size(&board);
    assert_eq!(size, 2)
}

#[test]
fn test_calc_board_size_rounds_down() {
    assert_eq!(calc_board_size(&Vec::new()), 0);
    assert_eq!(calc_board_size(&vec!['a']), 1);
    assert_eq!(calc_board_size(&vec!['a', 'b', 'c']), 1);
    assert_eq!(calc_board_size(&vec!['a'; 9]), 3);
    assert_eq!(calc_board_size(&vec!['a'; 10]), 3);
}

#[test]
fn test_from_tiles_valid() {
    let board = Board::from_tiles(vec!['a', 'b', 'c', 'd']).unwrap();
    assert_eq!(board.size, 2);
    assert_eq!(board.values, vec!['a', 'b', 'c', 'd']);
}

#[test]
fn test_from_tiles_rejects_non_square() {
    let result = Board::from_tiles(vec!['a', 'b', 'c']);
    assert!(matches!(result, Err(BoardError::InvalidBoard(_))));
}

#[test]
fn test_from_tiles_empty_board() {
    let board = Board::from_tiles(Vec::new()).unwrap();
    assert_eq!(board.size, 0);
}
