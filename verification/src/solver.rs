//! The traversal engine: for every starting tile, a depth-bounded,
//! backtracking depth-first walk of the grid's 8-neighbor adjacency graph,
//! pruned at each step by prefix classification against the word index, and
//! accumulating a deduplicated set of discovered words.

use vstd::prelude::*;

use crate::board::Board;
use crate::trie::FindWordResult;
use crate::trie::Trie;

verus! {

/// The relative offset of direction `k`: the eight king moves, diagonals
/// included.
pub open spec fn dir_delta(k: int) -> (int, int) {
    if k == 0 {
        (1, 1)
    } else if k == 1 {
        (1, 0)
    } else if k == 2 {
        (1, -1)
    } else if k == 3 {
        (0, 1)
    } else if k == 4 {
        (0, -1)
    } else if k == 5 {
        (-1, 1)
    } else if k == 6 {
        (-1, 0)
    } else {
        (-1, -1)
    }
}

/// The flat index of the neighbor of `pos` in direction `k`, or `None` when
/// that neighbor falls off the board.
pub open spec fn spec_neighbor(b: Board, pos: i32, k: int) -> Option<i32> {
    let size = b.size as int;
    let row = (pos as int) / size + dir_delta(k).0;
    let col = (pos as int) % size + dir_delta(k).1;
    if 0 <= row < size && 0 <= col < size {
        Some((row * size + col) as i32)
    } else {
        None
    }
}

/// The reported form of one collected tile character: 'q' stands for the
/// pair "qu" and expands back to it; every other character stands for itself.
pub open spec fn expand_char(c: char) -> Seq<char> {
    if c == 'q' {
        seq!['q', 'u']
    } else {
        seq![c]
    }
}

/// The reported form of a collected tile string, with every 'q' expanded to
/// "qu".
pub open spec fn expand_q(s: Seq<char>) -> Seq<char>
    decreases s.len(),
{
    if s.len() == 0 {
        Seq::empty()
    } else {
        expand_q(s.drop_last()) + expand_char(s.last())
    }
}

/// The set of character strings a string list holds.
pub open spec fn word_set(v: Seq<String>) -> Set<Seq<char>> {
    Set::new(|w: Seq<char>| exists|i: int| 0 <= i < v.len() && (#[trigger] v[i])@ == w)
}

/// No two entries of the list hold the same characters.
pub open spec fn no_dup_words(v: Seq<String>) -> bool {
    forall|i: int, j: int| 0 <= i < j < v.len() ==> v[i]@ != v[j]@
}

/// The words found by trying directions `0 .. k` out of the current position,
/// with `visited` the tile path walked so far and `partial` its characters.
pub open spec fn dirs_spec(
    b: Board,
    t: Trie,
    pos: i32,
    visited: Seq<i32>,
    partial: Seq<char>,
    depth: int,
    k: int,
) -> Set<Seq<char>>
    decreases 16 - depth, k,
{
    if k <= 0 || depth > 15 {
        Set::empty()
    } else {
        dirs_spec(b, t, pos, visited, partial, depth, k - 1) + match spec_neighbor(
            b,
            pos,
            k - 1,
        ) {
            Some(n) => {
                if !visited.contains(n) {
                    search_spec(
                        b,
                        t,
                        n,
                        visited.push(n),
                        partial.push(b.values@[n as int]),
                        depth + 1,
                    )
                } else {
                    Set::empty()
                }
            },
            None => Set::empty(),
        }
    }
}

/// The words found by the recursive search step rooted at `pos`: nothing
/// beyond the depth ceiling, nothing below an `Absent` prefix, the expanded
/// current string when it is `Complete`, and whatever the eight directions
/// yield beneath it.
pub open spec fn search_spec(
    b: Board,
    t: Trie,
    pos: i32,
    visited: Seq<i32>,
    partial: Seq<char>,
    depth: int,
) -> Set<Seq<char>>
    decreases 16 - depth, 9int,
{
    if depth > 15 {
        Set::empty()
    } else {
        match t.classify_spec(partial) {
            FindWordResult::Absent => Set::empty(),
            FindWordResult::Partial => dirs_spec(b, t, pos, visited, partial, depth, 8),
            FindWordResult::Complete => dirs_spec(b, t, pos, visited, partial, depth, 8).insert(
                expand_q(partial),
            ),
        }
    }
}

/// The words found by starting the search at each of the tiles `0 .. i`.
pub open spec fn traverse_upto(b: Board, t: Trie, i: int) -> Set<Seq<char>>
    decreases i,
{
    if i <= 0 {
        Set::empty()
    } else {
        traverse_upto(b, t, i - 1) + search_spec(
            b,
            t,
            (i - 1) as i32,
            seq![(i - 1) as i32],
            seq![b.values@[i - 1]],
            1,
        )
    }
}

/// The words found by starting the search at every tile of the board.
pub open spec fn traverse_spec(b: Board, t: Trie) -> Set<Seq<char>> {
    traverse_upto(b, t, b.values@.len() as int)
}

/// Relies on String::push: appends the given character to the end of the
/// string.
#[verifier::external_body]
fn push_char(s: &mut String, c: char)
    ensures
        final(s)@ == old(s)@.push(c),
{
    s.push(c)
}

/// The reported form of the collected tile characters, with every 'q'
/// expanded to "qu".
fn expand_word(chars: &Vec<char>) -> (r: String)
    ensures
        r@ == expand_q(chars@),
{
    let mut r = String::new();
    let mut i: usize = 0;
    proof {
        assert(chars@.take(0) =~= Seq::<char>::empty());
    }
    while i < chars.len()
        invariant
            i <= chars@.len(),
            r@ == expand_q(chars@.take(i as int)),
        decreases chars@.len() - i,
    {
        let ghost prev = r@;
        let c = chars[i];
        if c == 'q' {
            push_char(&mut r, 'q');
            push_char(&mut r, 'u');
        } else {
            push_char(&mut r, c);
        }
        proof {
            assert(chars@.take(i as int + 1).drop_last() =~= chars@.take(i as int));
            assert(chars@.take(i as int + 1).last() == chars@[i as int]);
            assert(r@ =~= prev + expand_char(chars@[i as int]));
        }
        i += 1;
    }
    proof {
        assert(chars@.take(chars@.len() as int) =~= chars@);
    }
    r
}

/// Whether the path walked so far already uses the tile `x`.
fn contains_position(v: &Vec<i32>, x: i32) -> (r: bool)
    ensures
        r == v@.contains(x),
{
    let mut i: usize = 0;
    while i < v.len()
        invariant
            i <= v@.len(),
            forall|k: int| 0 <= k < i ==> v@[k] != x,
        decreases v@.len() - i,
    {
        if v[i] == x {
            return true;
        }
        i += 1;
    }
    false
}

/// Whether the accumulated words already hold this string.
fn contains_word_string(v: &Vec<String>, s: &String) -> (r: bool)
    ensures
        r == word_set(v@).contains(s@),
{
    let mut i: usize = 0;
    while i < v.len()
        invariant
            i <= v@.len(),
            forall|k: int| 0 <= k < i ==> (#[trigger] v@[k])@ != s@,
        decreases v@.len() - i,
    {
        if *s == v[i] {
            return true;
        }
        i += 1;
    }
    false
}

/// Appending a string to a list adds exactly its characters to the held set.
proof fn lemma_word_set_snoc(v: Seq<String>, s: String)
    ensures
        word_set(v.push(s)) == word_set(v).insert(s@),
{
    assert forall|w: Seq<char>| word_set(v.push(s)).contains(w) implies word_set(v).insert(
        s@,
    ).contains(w) by {
        let i = choose|i: int| 0 <= i < v.push(s).len() && (#[trigger] v.push(s)[i])@ == w;
        if i < v.len() {
            assert(v[i]@ == w);
        }
    }
    assert forall|w: Seq<char>| word_set(v).insert(s@).contains(w) implies word_set(
        v.push(s),
    ).contains(w) by {
        if word_set(v).contains(w) {
            let i = choose|i: int| 0 <= i < v.len() && (#[trigger] v[i])@ == w;
            assert(v.push(s)[i]@ == w);
        } else {
            assert(v.push(s)[v.len() as int]@ == w);
        }
    }
    assert(word_set(v.push(s)) =~= word_set(v).insert(s@));
}

/// Add one word unless its characters are already held.
fn push_unique(acc: &mut Vec<String>, s: String)
    requires
        no_dup_words(old(acc)@),
    ensures
        no_dup_words(final(acc)@),
        word_set(final(acc)@) == word_set(old(acc)@).insert(s@),
{
    if contains_word_string(acc, &s) {
        proof {
            assert(word_set(acc@) =~= word_set(acc@).insert(s@));
        }
    } else {
        let ghost prev = acc@;
        acc.push(s);
        proof {
            lemma_word_set_snoc(prev, s);
            assert forall|i: int, j: int| 0 <= i < j < acc@.len() implies acc@[i]@ != acc@[j]@ by {
                if j == prev.len() {
                    assert(prev[i]@ != s@);
                }
            }
        }
    }
}

/// Pour one word list into another, keeping one entry per distinct string.
fn merge_words(acc: &mut Vec<String>, other: Vec<String>)
    requires
        no_dup_words(old(acc)@),
    ensures
        no_dup_words(final(acc)@),
        word_set(final(acc)@) == word_set(old(acc)@) + word_set(other@),
{
    let mut rest = other;
    let ghost target = word_set(old(acc)@) + word_set(other@);
    while rest.len() > 0
        invariant
            no_dup_words(acc@),
            word_set(acc@) + word_set(rest@) == target,
        decreases rest@.len(),
    {
        let ghost rest0 = rest@;
        match rest.pop() {
            Some(s) => {
                proof {
                    assert(rest0 =~= rest0.drop_last().push(rest0.last()));
                    lemma_word_set_snoc(rest0.drop_last(), rest0.last());
                    assert(rest@ =~= rest0.drop_last());
                }
                push_unique(acc, s);
                proof {
                    assert(word_set(acc@) + word_set(rest@) =~= target);
                }
            },
            None => {},
        }
    }
    proof {
        assert forall|w: Seq<char>| !(word_set(rest@).contains(w)) by {}
        assert(word_set(acc@) =~= word_set(acc@) + word_set(rest@));
    }
}

/// Row and column of a flat position lie in `[0, size)`.
proof fn lemma_coords(size: int, pos: int)
    requires
        0 <= size,
        0 <= pos < size * size,
    ensures
        0 < size,
        0 <= pos / size < size,
        0 <= pos % size < size,
{
    if size == 0 {
        assert(size * size == 0);
    }
    vstd::arithmetic::div_mod::lemma_fundamental_div_mod(pos, size);
    vstd::arithmetic::div_mod::lemma_mod_pos_bound(pos, size);
    let q = pos / size;
    let r = pos % size;
    assert(0 <= q < size) by (nonlinear_arith)
        requires
            pos == size * q + r,
            0 <= r < size,
            0 < size,
            0 <= pos < size * size,
    ;
}

/// A flat index built from an in-bounds row and column is itself in bounds
/// and decomposes back into them.
proof fn lemma_flat_index(size: int, row: int, col: int)
    requires
        0 < size,
        0 <= row < size,
        0 <= col < size,
    ensures
        0 <= row * size + col < size * size,
        (row * size + col) / size == row,
        (row * size + col) % size == col,
{
    assert(0 <= row * size + col < size * size) by (nonlinear_arith)
        requires
            0 < size,
            0 <= row < size,
            0 <= col < size,
    ;
    vstd::arithmetic::div_mod::lemma_fundamental_div_mod_converse(
        row * size + col,
        size,
        row,
        col,
    );
}

/// The flat index of the neighbor of `position` in direction `k`, skipping
/// neighbors whose row or column falls off the board.
pub fn neighbor_index(board: &Board, position: i32, k: usize) -> (r: Option<i32>)
    requires
        board.wf(),
        0 <= position,
        (position as int) < (board.size as int) * (board.size as int),
        k < 8,
    ensures
        r == spec_neighbor(*board, position, k as int),
        r matches Some(n) ==> 0 <= n && (n as int) < (board.size as int) * (board.size as int),
{
    proof {
        lemma_coords(board.size as int, position as int);
    }
    let size = board.size;
    let row = position / size;
    let col = position % size;
    let (dr, dc) = dir_delta_exec(k);
    let new_row = row + dr;
    let new_col = col + dc;
    if 0 <= new_row && new_row < size && 0 <= new_col && new_col < size {
        proof {
            lemma_flat_index(size as int, new_row as int, new_col as int);
        }
        Some(new_row * size + new_col)
    } else {
        None
    }
}

/// The relative offset of direction `k`.
fn dir_delta_exec(k: usize) -> (r: (i32, i32))
    requires
        k < 8,
    ensures
        r.0 as int == dir_delta(k as int).0,
        r.1 as int == dir_delta(k as int).1,
{
    if k == 0 {
        (1, 1)
    } else if k == 1 {
        (1, 0)
    } else if k == 2 {
        (1, -1)
    } else if k == 3 {
        (0, 1)
    } else if k == 4 {
        (0, -1)
    } else if k == 5 {
        (-1, 1)
    } else if k == 6 {
        (-1, 0)
    } else {
        (-1, -1)
    }
}

/// One recursive search step, rooted at `current_position` with the tile path
/// `visited_positions` and its characters `current_partial_word` already
/// committed. Returns the deduplicated words found at or below this step;
/// leaves the visited path as it found it and removes this step's own
/// character from the partial word before returning.
pub fn find_words(
    board: &Board,
    current_position: i32,
    visited_positions: &mut Vec<i32>,
    current_partial_word: &mut Vec<char>,
    trie_node: &Trie,
    depth: i16,
) -> (found: Vec<String>)
    requires
        board.wf(),
        trie_node.wf(),
        0 <= current_position,
        (current_position as int) < (board.size as int) * (board.size as int),
        old(current_partial_word)@.len() >= 1,
    ensures
        final(visited_positions)@ == old(visited_positions)@,
        final(current_partial_word)@ == old(current_partial_word)@.drop_last(),
        no_dup_words(found@),
        word_set(found@) == search_spec(
            *board,
            *trie_node,
            current_position,
            old(visited_positions)@,
            old(current_partial_word)@,
            depth as int,
        ),
    decreases 16 - depth as int,
{
    let ghost visited0 = old(visited_positions)@;
    let ghost partial0 = old(current_partial_word)@;
    let mut found: Vec<String> = Vec::new();
    if depth > 15 {
        current_partial_word.pop();
        proof {
            assert(word_set(found@) =~= search_spec(
                *board,
                *trie_node,
                current_position,
                visited0,
                partial0,
                depth as int,
            ));
        }
        return found;
    }
    let (result, _) = trie_node.classify(current_partial_word);
    if result == FindWordResult::Absent {
        current_partial_word.pop();
        proof {
            assert(word_set(found@) =~= search_spec(
                *board,
                *trie_node,
                current_position,
                visited0,
                partial0,
                depth as int,
            ));
        }
        return found;
    }
    let ghost base = if result == FindWordResult::Complete {
        Set::<Seq<char>>::empty().insert(expand_q(partial0))
    } else {
        Set::<Seq<char>>::empty()
    };
    if result == FindWordResult::Complete {
        let w = expand_word(current_partial_word);
        found.push(w);
        proof {
            lemma_word_set_snoc(Seq::<String>::empty(), w);
            assert(word_set(Seq::<String>::empty()) =~= Set::<Seq<char>>::empty());
        }
    }
    let mut k: usize = 0;
    proof {
        assert(word_set(Seq::<String>::empty()) =~= Set::<Seq<char>>::empty());
        assert(word_set(found@) =~= base + dirs_spec(
            *board,
            *trie_node,
            current_position,
            visited0,
            partial0,
            depth as int,
            0,
        ));
    }
    while k < 8
        invariant
            board.wf(),
            trie_node.wf(),
            0 <= current_position,
            (current_position as int) < (board.size as int) * (board.size as int),
            depth <= 15,
            k <= 8,
            visited_positions@ == visited0,
            current_partial_word@ == partial0,
            partial0.len() >= 1,
            no_dup_words(found@),
            word_set(found@) == base + dirs_spec(
                *board,
                *trie_node,
                current_position,
                visited0,
                partial0,
                depth as int,
                k as int,
            ),
        decreases 8 - k,
    {
        let ghost dirs_so_far = dirs_spec(
            *board,
            *trie_node,
            current_position,
            visited0,
            partial0,
            depth as int,
            k as int,
        );
        let ghost step = match spec_neighbor(*board, current_position, k as int) {
            Some(n) => {
                if !visited0.contains(n) {
                    search_spec(
                        *board,
                        *trie_node,
                        n,
                        visited0.push(n),
                        partial0.push(board.values@[n as int]),
                        depth as int + 1,
                    )
                } else {
                    Set::<Seq<char>>::empty()
                }
            },
            None => Set::<Seq<char>>::empty(),
        };
        match neighbor_index(board, current_position, k) {
            Some(index) => {
                if !contains_position(visited_positions, index) {
                    let c = board.values[index as usize];
                    current_partial_word.push(c);
                    visited_positions.push(index);
                    let words_found_within = find_words(
                        board,
                        index,
                        visited_positions,
                        current_partial_word,
                        trie_node,
                        depth + 1,
                    );
                    visited_positions.pop();
                    proof {
                        assert(visited_positions@ =~= visited0);
                        assert(current_partial_word@ =~= partial0);
                        assert(word_set(words_found_within@) == step);
                    }
                    merge_words(&mut found, words_found_within);
                }
            },
            None => {},
        }
        proof {
            assert(dirs_spec(
                *board,
                *trie_node,
                current_position,
                visited0,
                partial0,
                depth as int,
                k as int + 1,
            ) == dirs_so_far + step);
            assert(word_set(found@) =~= base + (dirs_so_far + step));
        }
        k += 1;
    }
    current_partial_word.pop();
    proof {
        assert(word_set(found@) =~= search_spec(
            *board,
            *trie_node,
            current_position,
            visited0,
            partial0,
            depth as int,
        ));
    }
    found
}

/// Walk the whole board: run the recursive search from every starting tile
/// and pour every word found into one deduplicated result list.
pub fn traverse_board(board: &Board, trie_node: &Trie) -> (words: Vec<String>)
    requires
        board.wf(),
        trie_node.wf(),
    ensures
        no_dup_words(words@),
        word_set(words@) == traverse_spec(*board, *trie_node),
{
    let mut words: Vec<String> = Vec::new();
    let mut i: usize = 0;
    proof {
        assert(word_set(words@) =~= traverse_upto(*board, *trie_node, 0));
    }
    while i < board.values.len()
        invariant
            board.wf(),
            trie_node.wf(),
            i <= board.values@.len(),
            no_dup_words(words@),
            word_set(words@) == traverse_upto(*board, *trie_node, i as int),
        decreases board.values@.len() - i,
    {
        let c = board.values[i];
        let mut current_partial_word: Vec<char> = Vec::new();
        current_partial_word.push(c);
        let position = i as i32;
        let mut visited_positions: Vec<i32> = Vec::new();
        visited_positions.push(position);
        proof {
            assert(current_partial_word@ =~= seq![board.values@[i as int]]);
            assert(visited_positions@ =~= seq![position]);
        }
        let found_words_for_char = find_words(
            board,
            position,
            &mut visited_positions,
            &mut current_partial_word,
            trie_node,
            1,
        );
        let ghost target = traverse_upto(*board, *trie_node, i as int + 1);
        merge_words(&mut words, found_words_for_char);
        proof {
            assert(word_set(words@) =~= target);
        }
        i += 1;
    }
    words
}

/// 8-adjacency of two flat positions on a board of edge `size`: distinct
/// cells whose rows and columns each differ by at most one.
pub open spec fn adjacent(size: int, p: int, q: int) -> bool {
    &&& p != q
    &&& -1 <= q / size - p / size <= 1
    &&& -1 <= q % size - p % size <= 1
}

/// A walkable tile path: every tile on the board, no tile used twice, and
/// every consecutive pair 8-adjacent.
pub open spec fn valid_path(b: Board, path: Seq<i32>) -> bool {
    &&& forall|a: int|
        0 <= a < path.len() ==> 0 <= #[trigger] path[a] && (path[a] as int) < (b.size as int) * (
        b.size as int)
    &&& forall|a: int, c: int| 0 <= a < c < path.len() ==> #[trigger] path[a] != #[trigger] path[c]
    &&& forall|a: int|
        0 <= a < path.len() - 1 ==> adjacent(
            b.size as int,
            #[trigger] path[a] as int,
            path[a + 1] as int,
        )
}

/// The characters collected along a tile path.
pub open spec fn path_chars(b: Board, path: Seq<i32>) -> Seq<char> {
    path.map_values(|p: i32| b.values@[p as int])
}

/// `path` is a witness that the reported word `w` can be walked on the board:
/// a valid path of at most the depth ceiling, whose collected characters are
/// stored in the index and expand to `w`.
pub open spec fn path_spells_word(b: Board, t: Trie, w: Seq<char>, path: Seq<i32>) -> bool {
    &&& valid_path(b, path)
    &&& 1 <= path.len() <= 15
    &&& t.contains_word(path_chars(b, path))
    &&& expand_q(path_chars(b, path)) == w
}

proof fn lemma_search_sound(
    b: Board,
    t: Trie,
    pos: i32,
    visited: Seq<i32>,
    partial: Seq<char>,
    depth: int,
    w: Seq<char>,
)
    requires
        b.wf(),
        1 <= depth == visited.len(),
        valid_path(b, visited),
        visited.last() == pos,
        partial == path_chars(b, visited),
        search_spec(b, t, pos, visited, partial, depth).contains(w),
    ensures
        exists|path: Seq<i32>|
            #[trigger] path_spells_word(b, t, w, path) && visited.is_prefix_of(path),
    decreases 16 - depth, 9int,
{
    let dirs = dirs_spec(b, t, pos, visited, partial, depth, 8);
    if t.classify_spec(partial) == FindWordResult::Complete && w == expand_q(partial) {
        assert(visited.is_prefix_of(visited)) by {
            assert(visited.subrange(0, visited.len() as int) =~= visited);
        }
        assert(path_chars(b, visited).len() == visited.len());
        assert(path_spells_word(b, t, w, visited));
    } else {
        assert(dirs.contains(w));
        lemma_dirs_sound(b, t, pos, visited, partial, depth, 8, w);
    }
}

proof fn lemma_dirs_sound(
    b: Board,
    t: Trie,
    pos: i32,
    visited: Seq<i32>,
    partial: Seq<char>,
    depth: int,
    k: int,
    w: Seq<char>,
)
    requires
        b.wf(),
        1 <= depth <= 15,
        depth == visited.len(),
        valid_path(b, visited),
        visited.last() == pos,
        partial == path_chars(b, visited),
        dirs_spec(b, t, pos, visited, partial, depth, k).contains(w),
    ensures
        exists|path: Seq<i32>|
            #[trigger] path_spells_word(b, t, w, path) && visited.is_prefix_of(path),
    decreases 16 - depth, k,
{
    if k <= 0 {
        assert(false);
    } else if dirs_spec(b, t, pos, visited, partial, depth, k - 1).contains(w) {
        lemma_dirs_sound(b, t, pos, visited, partial, depth, k - 1, w);
    } else {
        let size = b.size as int;
        let n = spec_neighbor(b, pos, k - 1)->Some_0;
        assert(spec_neighbor(b, pos, k - 1) is Some && !visited.contains(n));
        let row = (pos as int) / size + dir_delta(k - 1).0;
        let col = (pos as int) % size + dir_delta(k - 1).1;
        lemma_coords(size, pos as int);
        lemma_flat_index(size, row, col);
        assert(n as int == row * size + col);
        let visited2 = visited.push(n);
        let partial2 = partial.push(b.values@[n as int]);
        assert(valid_path(b, visited2)) by {
            assert(forall|a: int| 0 <= a < visited.len() ==> visited2[a] == visited[a]);
            assert forall|a: int, c: int| 0 <= a < c < visited2.len() implies visited2[a]
                != visited2[c] by {
                if c == visited.len() {
                    assert(!visited.contains(n));
                    assert(visited[a] != n);
                }
            }
            assert(adjacent(size, pos as int, n as int));
        }
        assert(partial2 =~= path_chars(b, visited2));
        lemma_search_sound(b, t, n, visited2, partial2, depth + 1, w);
        let path = choose|path: Seq<i32>|
            #[trigger] path_spells_word(b, t, w, path) && visited2.is_prefix_of(path);
        assert(visited.is_prefix_of(path)) by {
            assert(visited2 =~= path.subrange(0, visited2.len() as int));
            assert(visited =~= path.subrange(0, visited.len() as int));
        }
    }
}

/// No revisits, only real moves: every word the traversal reports is spelled
/// by some path of distinct, consecutively 8-adjacent board tiles, of at most
/// the depth ceiling, whose collected characters are stored in the index and
/// expand (with 'q' written back as "qu") to the word.
pub proof fn lemma_traverse_sound(b: Board, t: Trie, w: Seq<char>)
    requires
        b.wf(),
        traverse_spec(b, t).contains(w),
    ensures
        exists|path: Seq<i32>| #[trigger] path_spells_word(b, t, w, path),
{
    lemma_upto_sound(b, t, w, b.values@.len() as int);
}

proof fn lemma_upto_sound(b: Board, t: Trie, w: Seq<char>, i: int)
    requires
        b.wf(),
        i <= b.values@.len(),
        traverse_upto(b, t, i).contains(w),
    ensures
        exists|path: Seq<i32>| #[trigger] path_spells_word(b, t, w, path),
    decreases i,
{
    if i <= 0 {
        assert(false);
    } else if traverse_upto(b, t, i - 1).contains(w) {
        lemma_upto_sound(b, t, w, i - 1);
    } else {
        let pos = (i - 1) as i32;
        let visited = seq![pos];
        let partial = seq![b.values@[i - 1]];
        assert(pos as int == i - 1);
        assert(valid_path(b, visited));
        assert(partial =~= path_chars(b, visited));
        lemma_search_sound(b, t, pos, visited, partial, 1, w);
    }
}

/// Idempotence: the traversal's result is a function of the board and the
/// word index alone, so two runs on the same inputs hold exactly the same
/// words.
pub proof fn lemma_traverse_idempotent(b: Board, t: Trie, r1: Seq<String>, r2: Seq<String>)
    requires
        word_set(r1) == traverse_spec(b, t),
        word_set(r2) == traverse_spec(b, t),
    ensures
        word_set(r1) == word_set(r2),
{
}

/// Expansion at most doubles a string, and a reported word without any 'q'
/// is its own collected string.
proof fn lemma_expand_len(s: Seq<char>)
    ensures
        s.len() <= expand_q(s).len() <= 2 * s.len(),
        !expand_q(s).contains('q') ==> expand_q(s) == s,
    decreases s.len(),
{
    if s.len() > 0 {
        lemma_expand_len(s.drop_last());
        let e1 = expand_q(s.drop_last());
        let e2 = expand_char(s.last());
        if !expand_q(s).contains('q') {
            assert forall|x: char| e1.contains(x) implies expand_q(s).contains(x) by {
                let idx = choose|idx: int| 0 <= idx < e1.len() && e1[idx] == x;
                assert(expand_q(s)[idx] == x);
            }
            assert forall|x: char| e2.contains(x) implies expand_q(s).contains(x) by {
                let idx = choose|idx: int| 0 <= idx < e2.len() && e2[idx] == x;
                assert(expand_q(s)[e1.len() + idx] == x);
            }
            if s.last() == 'q' {
                assert(e2[0] == 'q');
                assert(e2.contains('q'));
                assert(false);
            }
            assert(e2 =~= seq![s.last()]);
            assert(expand_q(s) =~= s.drop_last() + seq![s.last()]);
            assert(s =~= s.drop_last() + seq![s.last()]);
        }
    }
}

/// Depth bound: the traversal never reports a word collected from more than
/// 15 tiles, so no reported word exceeds 30 characters, and one without any
/// 'q' (where no expansion happened) does not exceed 15.
pub proof fn lemma_depth_bound(b: Board, t: Trie, w: Seq<char>)
    requires
        b.wf(),
        traverse_spec(b, t).contains(w),
    ensures
        w.len() <= 30,
        !w.contains('q') ==> w.len() <= 15,
{
    lemma_traverse_sound(b, t, w);
    let path = choose|path: Seq<i32>| #[trigger] path_spells_word(b, t, w, path);
    lemma_expand_len(path_chars(b, path));
}

} // verus!
