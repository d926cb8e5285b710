//! The grid model: a flat, row-major sequence of single-character tiles
//! forming a square board, and the validation that builds it from tokens.

use vstd::prelude::*;

verus! {

/// Failure to obtain a board: an I/O failure (carrying the underlying
/// message) or a shape failure (the tiles do not form a perfect square).
#[derive(Debug)]
pub enum BoardError {
    IoError(String),
    InvalidBoard(String),
}

/// A square letter grid, stored as a flat row-major tile sequence together
/// with its edge length.
#[derive(Debug)]
pub struct Board {
    pub values: Vec<char>,
    pub size: i32,
}

impl Board {
    /// The tiles fill a square whose area fits the index arithmetic.
    pub open spec fn wf(&self) -> bool {
        &&& 0 <= self.size
        &&& (self.size as int) * (self.size as int) <= 0x7fff_ffff
        &&& self.values@.len() == (self.size as int) * (self.size as int)
    }

    /// Validate that the tiles form a perfect square and construct the board;
    /// otherwise report the shape failure.
    pub fn from_tiles(values: Vec<char>) -> (r: Result<Board, BoardError>)
        ensures
            match r {
                Ok(b) => b.wf() && b.values@ == values@,
                Err(e) => (e matches BoardError::InvalidBoard(_)) && (forall|s: int|
                    0 <= s && #[trigger] (s * s) <= 0x7fff_ffff ==> s * s != values@.len()),
            },
    {
        let size = calc_board_size(&values);
        proof {
            assert((size as int) * (size as int) < 0x1_0000_0000_0000_0000) by (nonlinear_arith)
                requires
                    0 <= size as int <= 0x7fff_ffff,
            ;
        }
        let sq: u64 = (size as u64) * (size as u64);
        if sq == values.len() as u64 && sq <= 0x7fff_ffff {
            Ok(Board { values, size })
        } else {
            proof {
                let n = values@.len() as int;
                let r = size as int;
                assert forall|s: int| 0 <= s && #[trigger] (s * s) <= 0x7fff_ffff implies s * s
                    != n by {
                    if s * s == n {
                        assert(r * r <= n);
                        if r < 0x7fff_ffff {
                            lemma_isqrt_unique(r, s, n);
                        } else {
                            assert(n < 0x7fff_ffff * 0x7fff_ffff) by (nonlinear_arith)
                                requires
                                    s * s == n,
                                    0 <= s,
                                    s * s <= 0x7fff_ffff,
                            ;
                            assert(r * r < 0x7fff_ffff * 0x7fff_ffff ==> r < 0x7fff_ffff)
                                by (nonlinear_arith);
                        }
                    }
                }
            }
            Err(
                BoardError::InvalidBoard(
                    "Board is not a perfect square. Add, remove, or fix values to create a valid board.".to_owned(),
                ),
            )
        }
    }
}

/// An integer square root `s` of `n` lying between `r*r` and `(r+1)*(r+1)`
/// equals `r`.
proof fn lemma_isqrt_unique(r: int, s: int, n: int)
    by (nonlinear_arith)
    requires
        0 <= r,
        0 <= s,
        r * r <= n,
        n < (r + 1) * (r + 1),
        s * s == n,
    ensures
        s == r,
{
}

/// The edge length of a square board holding `values.len()` tiles: the integer
/// square root of the tile count, saturated at the largest `i32`.
pub fn calc_board_size(values: &Vec<char>) -> (r: i32)
    ensures
        0 <= r,
        (r as int) * (r as int) <= values@.len(),
        r < 0x7fff_ffff ==> values@.len() < (r as int + 1) * (r as int + 1),
{
    let n: u64 = values.len() as u64;
    let mut lo: u64 = 0;
    let mut hi: u64 = 0x1_0000_0000;
    proof {
        assert((hi as int) * (hi as int) > n as int) by (nonlinear_arith)
            requires
                hi == 0x1_0000_0000,
                n < hi * hi,
        ;
    }
    while lo + 1 < hi
        invariant
            lo < hi <= 0x1_0000_0000,
            (lo as int) * (lo as int) <= n as int,
            (n as int) < (hi as int) * (hi as int),
        decreases hi - lo,
    {
        let mid = lo + (hi - lo) / 2;
        proof {
            assert((mid as int) * (mid as int) < 0x1_0000_0000_0000_0000) by (nonlinear_arith)
                requires
                    mid < 0x1_0000_0000,
            ;
        }
        if mid * mid <= n {
            lo = mid;
        } else {
            hi = mid;
        }
    }
    if lo >= 0x7fff_ffff {
        proof {
            assert(0x7fff_ffff * 0x7fff_ffff <= (lo as int) * (lo as int)) by (nonlinear_arith)
                requires
                    0x7fff_ffff <= lo as int,
            ;
        }
        0x7fff_ffff
    } else {
        lo as i32
    }
}

/// The tile a whitespace-delimited input token stands for: a single character
/// stands for itself, the pair "qu" is stored as the single tile 'q', and any
/// other token is rejected.
pub open spec fn token_char(t: Seq<char>) -> Option<char> {
    if t.len() == 1 {
        Some(t[0])
    } else if t.len() == 2 && t[0] == 'q' && t[1] == 'u' {
        Some('q')
    } else {
        None
    }
}

/// The tile sequence a token list cleans up to: accepted tokens in order,
/// rejected tokens dropped.
pub open spec fn clean_tiles(ws: Seq<Seq<char>>) -> Seq<char>
    decreases ws.len(),
{
    if ws.len() == 0 {
        Seq::empty()
    } else {
        clean_tiles(ws.drop_last()) + match token_char(ws.last()) {
            Some(c) => seq![c],
            None => Seq::empty(),
        }
    }
}

/// Turn the whitespace-delimited tokens of a board file into the flat tile
/// sequence, dropping every token that is not a single character or "qu".
pub fn get_clean_board(words: &Vec<String>) -> (r: Vec<char>)
    ensures
        r@ == clean_tiles(words@.map_values(|s: String| s@)),
{
    let ghost view = words@.map_values(|s: String| s@);
    let mut r: Vec<char> = Vec::new();
    let mut i: usize = 0;
    proof {
        assert(view.take(0) =~= Seq::<Seq<char>>::empty());
    }
    while i < words.len()
        invariant
            i <= words@.len(),
            view == words@.map_values(|s: String| s@),
            r@ == clean_tiles(view.take(i as int)),
        decreases words@.len() - i,
    {
        let w = &words[i];
        let n = w.as_str().unicode_len();
        if n == 1 {
            r.push(w.as_str().get_char(0));
        } else if n == 2 {
            let c0 = w.as_str().get_char(0);
            let c1 = w.as_str().get_char(1);
            if c0 == 'q' && c1 == 'u' {
                r.push('q');
            }
        }
        proof {
            assert(view.take(i as int + 1).drop_last() =~= view.take(i as int));
            assert(view.take(i as int + 1).last() == view[i as int]);
            assert(view[i as int] == words@[i as int]@);
        }
        i += 1;
    }
    proof {
        assert(view.take(view.len() as int) =~= view);
    }
    r
}

} // verus!
