//! The dictionary model: the word-list filter applied by the loader, which
//! excludes every word of two characters or fewer.

use vstd::prelude::*;

verus! {

/// The word list a dictionary file filters down to: words longer than two
/// characters, in their original order.
pub open spec fn long_words(ws: Seq<Seq<char>>) -> Seq<Seq<char>>
    decreases ws.len(),
{
    if ws.len() == 0 {
        Seq::empty()
    } else {
        long_words(ws.drop_last()) + if ws.last().len() > 2 {
            seq![ws.last()]
        } else {
            Seq::empty()
        }
    }
}

/// Keep exactly the words longer than two characters, in order.
pub fn filter_short_words(words: &Vec<String>) -> (r: Vec<String>)
    ensures
        r@.map_values(|s: String| s@) == long_words(words@.map_values(|s: String| s@)),
{
    let ghost view = words@.map_values(|s: String| s@);
    let mut r: Vec<String> = Vec::new();
    let mut i: usize = 0;
    proof {
        assert(view.take(0) =~= Seq::<Seq<char>>::empty());
        assert(r@.map_values(|s: String| s@) =~= long_words(view.take(0)));
    }
    while i < words.len()
        invariant
            i <= words@.len(),
            view == words@.map_values(|s: String| s@),
            r@.map_values(|s: String| s@) == long_words(view.take(i as int)),
        decreases words@.len() - i,
    {
        let w = &words[i];
        let ghost prev = r@;
        if w.as_str().unicode_len() > 2 {
            r.push(w.clone());
            proof {
                assert(r@.map_values(|s: String| s@) =~= prev.map_values(|s: String| s@) + seq![
                    words@[i as int]@,
                ]);
            }
        }
        proof {
            assert(view.take(i as int + 1).drop_last() =~= view.take(i as int));
            assert(view.take(i as int + 1).last() == words@[i as int]@);
        }
        i += 1;
    }
    proof {
        assert(view.take(view.len() as int) =~= view);
    }
    r
}

} // verus!
