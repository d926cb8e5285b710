use boggle::board::Board;
use boggle::solver::neighbor_index;
use boggle::solver::traverse_board;
use boggle::trie::Trie;

fn board(tiles: &[char]) -> Board {
    Board::from_tiles(tiles.to_vec()).unwrap()
}

fn index(words: &[&str]) -> Trie {
    Trie::from_dict(words.iter().map(|w| w.to_string()).collect())
}

fn solve(tiles: &[char], words: &[&str]) -> Vec<String> {
    let mut found = traverse_board(&board(tiles), &index(words));
    found.sort();
    found
}

#[test]
fn test_boundary_adjacency() {
    // On the 2x2 board [a, b, c, d], tile a at (0,0) touches b right, c
    // below, and d diagonally.
    assert_eq!(solve(&['a', 'b', 'c', 'd'], &["ab"]), vec!["ab".to_string()]);
    assert_eq!(solve(&['a', 'b', 'c', 'd'], &["ac"]), vec!["ac".to_string()]);
    assert_eq!(solve(&['a', 'b', 'c', 'd'], &["ad"]), vec!["ad".to_string()]);
}

#[test]
fn test_corner_has_exactly_three_neighbors() {
    let b = board(&['a', 'b', 'c', 'd']);
    let mut neighbors: Vec<i32> = Vec::new();
    for k in 0..8 {
        if let Some(n) = neighbor_index(&b, 0, k) {
            neighbors.push(n);
        }
    }
    neighbors.sort();
    assert_eq!(neighbors, vec![1, 2, 3]);
}

#[test]
fn test_pruning_yields_empty_set() {
    assert!(solve(&['a', 'b', 'c', 'd'], &["xyz"]).is_empty());
}

#[test]
fn test_q_expansion() {
    // The tile 'q' stands for "qu": the collected path q->a->t matches the
    // stored letters q,a,t and is reported with the expansion written back.
    let found = solve(&['q', 'a', 't', 's'], &["qat"]);
    assert_eq!(found, vec!["quat".to_string()]);
    assert!(!found.contains(&"qat".to_string()));
    // The stored word "quat" spells q,u,a,t, which no tile path matches here.
    assert!(solve(&['q', 'a', 't', 's'], &["quat"]).is_empty());
}

#[test]
fn test_no_tile_revisited() {
    // "aba" would need the single 'a' tile twice.
    assert!(solve(&['a', 'b', 'c', 'd'], &["aba"]).is_empty());
    assert_eq!(solve(&['a', 'b', 'c', 'd'], &["abc"]), vec!["abc".to_string()]);
}

#[test]
fn test_traverse_is_idempotent() {
    let tiles = ['c', 'a', 'r', 't'];
    let words = ["cat", "car", "cart", "rat", "tar", "art", "xyz"];
    let first = solve(&tiles, &words);
    let second = solve(&tiles, &words);
    assert_eq!(first, second);
    assert!(!first.is_empty());
}

#[test]
fn test_three_by_three_paths() {
    let tiles = ['a', 'b', 'c', 'd', 'e', 'f', 'g', 'h', 'j'];
    // Straight down the first column, a diagonal, and a word crossing rows.
    let found = solve(&tiles, &["adg", "aej", "beh", "fed", "cfj", "ax"]);
    assert_eq!(
        found,
        vec![
            "adg".to_string(),
            "aej".to_string(),
            "beh".to_string(),
            "cfj".to_string(),
            "fed".to_string(),
        ]
    );
}

#[test]
fn test_complete_word_is_also_explored_further() {
    // "cart" inside "carton" must both be reported when both are walkable.
    let tiles = ['c', 'a', 'x', 'x', 'r', 'x', 'o', 't', 'n'];
    let found = solve(&tiles, &["cart", "carto", "carton"]);
    assert!(found.contains(&"cart".to_string()));
}

#[test]
fn test_empty_board_and_empty_dictionary() {
    assert!(solve(&[], &["any"]).is_empty());
    assert!(solve(&['a', 'b', 'c', 'd'], &[]).is_empty());
}

#[test]
fn test_duplicate_finds_are_reported_once() {
    // Two disjoint paths spell "ab"; the result set holds it once.
    let tiles = ['a', 'b', 'x', 'x', 'x', 'x', 'b', 'a', 'x'];
    let found = solve(&tiles, &["ab"]);
    assert_eq!(found, vec!["ab".to_string()]);
}
