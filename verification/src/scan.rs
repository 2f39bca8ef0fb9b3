//! A search without a trie: the words are taken one by one, and each starts
//! from the frames that it shares with the word before it.

use vstd::prelude::*;
use crate::frontier::{
    findable, lemma_empty_findable, lemma_findable_prefix, lemma_frame_alive, Frontier,
};
use crate::grid::Grid;
use crate::trie::shared_len;

verus! {

/// The words of `words` that a simple path of adjacent cells spells in
/// the grid, in the order of the list. The frames of the bytes that a word
/// shares with the one before it are kept, so a sorted list costs least;
/// the answer is the same in any order.
pub fn eval_word_list(grid: &Grid, words: &[&'static [u8]]) -> (result: Vec<&'static [u8]>)
    ensures
        result@ == words@.filter(|w: &'static [u8]| findable(*grid, w@)),
{
    let mut result: Vec<&'static [u8]> = Vec::new();
    let mut frontier = Frontier::new();
    let ghost keep_word = |w: &'static [u8]| findable(*grid, w@);
    assert(words@.take(0).filter(keep_word) =~= Seq::empty()) by {
        words@.take(0).lemma_filter_len(keep_word);
    }
    let mut k: usize = 0;
    while k < words.len()
        invariant
            k <= words@.len(),
            keep_word == |w: &'static [u8]| findable(*grid, w@),
            frontier.wf(*grid),
            forall|n: int|
                0 <= n < frontier.word_stack@.len() ==> findable(
                    *grid,
                    #[trigger] frontier.word_stack@.take(n),
                ),
            result@ == words@.take(k as int).filter(keep_word),
        decreases words@.len() - k,
    {
        let word = words[k];
        proof {
            assert(words@.take(k + 1) =~= words@.take(k as int).push(word));
            words@.take(k as int).lemma_filter_push(word, keep_word);
        }
        let keep = shared_len(word, frontier.word_stack.as_slice());
        let depth = frontier.level_stack.len();
        let ghost stacked = frontier.word_stack@;
        assert(stacked.take(keep as int) =~= word@.take(keep as int));
        let mut alive = true;
        if keep == depth {
            assert(stacked.take(keep as int) =~= stacked);
            if depth > 0 {
                proof {
                    lemma_frame_alive(frontier, *grid);
                }
                alive = frontier.level_stack[depth - 1] < frontier.position_stack.len();
            } else {
                proof {
                    lemma_empty_findable(*grid);
                    assert(stacked =~= Seq::<u8>::empty());
                }
            }
        } else {
            frontier.rewind(keep);
            assert forall|n: int| 0 <= n < frontier.word_stack@.len() implies findable(
                *grid,
                #[trigger] frontier.word_stack@.take(n),
            ) by {
                assert(frontier.word_stack@.take(n) =~= stacked.take(n));
            }
        }
        assert(frontier.word_stack@ == word@.take(keep as int));
        assert(alive <==> findable(*grid, frontier.word_stack@));
        let mut j: usize = keep;
        while j < word.len() && alive
            invariant
                keep <= j <= word@.len(),
                frontier.wf(*grid),
                frontier.word_stack@ == word@.take(j as int),
                alive <==> findable(*grid, frontier.word_stack@),
                forall|n: int|
                    0 <= n < frontier.word_stack@.len() ==> findable(
                        *grid,
                        #[trigger] frontier.word_stack@.take(n),
                    ),
            decreases word@.len() - j,
        {
            let ghost shorter = frontier.word_stack@;
            alive = frontier.advance(grid, word[j]);
            proof {
                assert(word@.take(j + 1) =~= word@.take(j as int).push(word@[j as int]));
                assert forall|n: int| 0 <= n < frontier.word_stack@.len() implies findable(
                    *grid,
                    #[trigger] frontier.word_stack@.take(n),
                ) by {
                    if n < shorter.len() {
                        assert(frontier.word_stack@.take(n) =~= shorter.take(n));
                    } else {
                        assert(frontier.word_stack@.take(n) =~= shorter);
                    }
                }
            }
            j += 1;
        }
        proof {
            if alive {
                assert(word@.take(j as int) =~= word@);
            } else if findable(*grid, word@) {
                lemma_findable_prefix(*grid, word@, j as int);
            }
        }
        if alive {
            result.push(word);
        }
        k += 1;
    }
    assert(words@.take(k as int) =~= words@);
    result
}

} // verus!
