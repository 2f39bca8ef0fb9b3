//! The search engine: one depth-first walk over the trie that carries the
//! path frontier along and lists every word the grid holds.

use vstd::prelude::*;
use vstd::slice::slice_subrange;
use vstd::seq_lib::lemma_seq_concat_contains_all_elements;
use crate::frontier::{findable, lemma_findable_fits, lemma_findable_prefix, Frontier};
use crate::grid::Grid;
use crate::order::{ascending, differ_at, lemma_ascending_concat, lemma_ascending_unique, lex_less};
use crate::trie::{all_letters, listed, Trie};

verus! {

/// The words found through the slots `from..` of `node`, slot after slot,
/// where `prefix` is what the walk has spelled on its way to `node`.
pub open spec fn found_below(g: Grid, node: Trie, from: int, prefix: Seq<u8>) -> Seq<Seq<u8>>
    decreases node, node.children@.len() - from,
{
    if from < 0 || from >= node.children@.len() {
        Seq::empty()
    } else {
        (match node.children@[from] {
            Some(c) => found_at(g, *c, prefix),
            None => Seq::empty(),
        }) + found_below(g, node, from + 1, prefix)
    }
}

/// The words found at `node` and under it: none where the grid cannot spell
/// `prefix` followed by the node's label; else that word, if one ends at
/// the node, and then the words found through the node's slots.
pub open spec fn found_at(g: Grid, node: Trie, prefix: Seq<u8>) -> Seq<Seq<u8>>
    decreases node, node.children@.len() + 1,
{
    let w = prefix + node.bytes@;
    if findable(g, w) {
        (if node.end {
            seq![w]
        } else {
            Seq::empty()
        }) + found_below(g, node, 0, w)
    } else {
        Seq::empty()
    }
}

/// The characters of a word of lowercase bytes.
pub open spec fn as_text(w: Seq<u8>) -> Seq<char> {
    w.map_values(|b: u8| b as char)
}

/// The first taken slot of `els` with what follows it, if any slot is taken.
pub fn first_sub<'a>(els: &'a [Option<Box<Trie>>]) -> (r: Option<
    (&'a Trie, &'a [Option<Box<Trie>>]),
>)
    ensures
        match r {
            None => forall|i: int| 0 <= i < els@.len() ==> (#[trigger] els@[i]) is None,
            Some((sub, rest)) => {
                let at = els@.len() - rest@.len() - 1;
                &&& 0 <= at < els@.len()
                &&& forall|i: int| 0 <= i < at ==> (#[trigger] els@[i]) is None
                &&& els@[at] == Some(Box::new(*sub))
                &&& rest@ == els@.skip(at + 1)
            },
        },
{
    let mut i: usize = 0;
    while i < els.len()
        invariant
            i <= els@.len(),
            forall|k: int| 0 <= k < i ==> (#[trigger] els@[k]) is None,
        decreases els@.len() - i,
    {
        if let Some(e) = &els[i] {
            let rest = slice_subrange(els, i + 1, els.len());
            let sub: &'a Trie = &**e;
            return Some((sub, rest));
        }
        i += 1;
    }
    None
}

/// How much of the walk is left below the slots `from..` of `node`: one
/// step for leaving the node, and for every taken slot one step more than
/// what is left below its child.
pub open spec fn weight(node: Trie, from: int) -> nat
    decreases node, node.children@.len() - from,
{
    if from < 0 || from >= node.children@.len() {
        1
    } else {
        (match node.children@[from] {
            Some(c) => 1 + weight(*c, 0),
            None => 0nat,
        }) + weight(node, from + 1)
    }
}

/// The walk's open ends, innermost last: a node, the first of its slots
/// that is still to be looked at, and the prefix spelled on the way to it.
pub open spec fn stack_weight(frames: Seq<(Trie, int, Seq<u8>)>) -> nat
    decreases frames.len(),
{
    if frames.len() == 0 {
        0
    } else {
        weight(frames.last().0, frames.last().1) + stack_weight(frames.drop_last())
    }
}

/// The words that the open ends of the walk will still give, innermost
/// end first.
pub open spec fn pending(g: Grid, frames: Seq<(Trie, int, Seq<u8>)>) -> Seq<Seq<u8>>
    decreases frames.len(),
{
    if frames.len() == 0 {
        Seq::empty()
    } else {
        found_below(g, frames.last().0, frames.last().1, frames.last().2) + pending(
            g,
            frames.drop_last(),
        )
    }
}

/// Slots that are all empty give no word, and leaving them is one step.
proof fn lemma_nothing_below(g: Grid, node: Trie, from: int, prefix: Seq<u8>)
    requires
        0 <= from,
        forall|i: int| from <= i < node.children@.len() ==> (#[trigger] node.children@[i]) is None,
    ensures
        found_below(g, node, from, prefix) == Seq::<Seq<u8>>::empty(),
        weight(node, from) == 1,
    decreases node.children@.len() - from,
{
    if from < node.children@.len() {
        lemma_nothing_below(g, node, from + 1, prefix);
        assert(node.children@[from] is None);
        assert(Seq::<Seq<u8>>::empty() + Seq::<Seq<u8>>::empty() =~= Seq::<Seq<u8>>::empty());
    }
}

/// Empty slots before slot `at` change neither the words found nor the
/// steps left.
proof fn lemma_skip_empty(g: Grid, node: Trie, from: int, at: int, prefix: Seq<u8>)
    requires
        0 <= from <= at <= node.children@.len(),
        forall|i: int| from <= i < at ==> (#[trigger] node.children@[i]) is None,
    ensures
        found_below(g, node, from, prefix) == found_below(g, node, at, prefix),
        weight(node, from) == weight(node, at),
    decreases at - from,
{
    if from < at {
        lemma_skip_empty(g, node, from + 1, at, prefix);
        assert(node.children@[from] is None);
        assert(Seq::<Seq<u8>>::empty() + found_below(g, node, from + 1, prefix) =~= found_below(
            g,
            node,
            from + 1,
            prefix,
        ));
    }
}

/// The frame at place `k` of the walk's stack matches the open end at that
/// place: its slots are those still to be looked at, and its length is that
/// of the label that lengthened the prefix of the frame before.
pub open spec fn frame_ok(
    stack: Seq<(usize, &[Option<Box<Trie>>])>,
    frames: Seq<(Trie, int, Seq<u8>)>,
    k: int,
) -> bool {
    let (node, from, prefix) = frames[k];
    &&& node.wf()
    &&& 0 <= from <= 26
    &&& stack[k].1@ == node.children@.skip(from)
    &&& all_letters(prefix)
    &&& if k == 0 {
        stack[k].0 == 0 && prefix.len() == 0
    } else {
        &&& stack[k].0 > 0
        &&& prefix.len() == frames[k - 1].2.len() + stack[k].0
        &&& frames[k - 1].2 == prefix.take(frames[k - 1].2.len() as int)
    }
}

/// Turns a word of lowercase bytes into a `String` with
/// `String::from_utf8`. Such bytes are ASCII, so the call succeeds and the
/// string has one character for each byte.
#[verifier::external_body]
fn word_text(bytes: Vec<u8>) -> (s: String)
    requires
        all_letters(bytes@),
    ensures
        s@ == as_text(bytes@),
{
    String::from_utf8(bytes).unwrap()
}

/// Every word that the walk over the whole trie finds in the grid, in the
/// order of the walk.
pub open spec fn found_words(g: Grid, trie: Trie) -> Seq<Seq<u8>> {
    found_below(g, trie, 0, Seq::empty())
}

/// The characters of each string of `v`.
pub open spec fn texts_of(v: Seq<String>) -> Seq<Seq<char>> {
    v.map_values(|s: String| s@)
}

/// One more open end on the stack adds its words in front and its steps on
/// top.
proof fn lemma_push_frame(g: Grid, frames: Seq<(Trie, int, Seq<u8>)>, f: (Trie, int, Seq<u8>))
    ensures
        pending(g, frames.push(f)) == found_below(g, f.0, f.1, f.2) + pending(g, frames),
        stack_weight(frames.push(f)) == weight(f.0, f.1) + stack_weight(frames),
{
    assert(frames.push(f).drop_last() =~= frames);
}

/// Lists every word of the dictionary that a simple path of adjacent cells
/// spells in the grid. The walk goes through the trie depth first, slot
/// `a` before slot `b` and a word before the longer words that start with
/// it, and gives up a branch as soon as the grid cannot spell its prefix.
pub fn eval_grid(grid: &Grid, trie: &Trie) -> (result: Vec<String>)
    requires
        trie.wf(),
    ensures
        texts_of(result@) == found_words(*grid, *trie).map_values(|w: Seq<u8>| as_text(w)),
        ascending(found_words(*grid, *trie)),
        forall|w: Seq<u8>| #[trigger]
            found_words(*grid, *trie).contains(w) <==> trie.accepts_below(w) && findable(*grid, w),
{
    let mut result: Vec<String> = Vec::new();
    let mut frontier = Frontier::new();
    let mut trie_stack: Vec<(usize, &[Option<Box<Trie>>])> = Vec::new();
    trie_stack.push((0, trie.children.as_slice()));
    let ghost mut frames: Seq<(Trie, int, Seq<u8>)> = seq![(*trie, 0int, Seq::<u8>::empty())];
    let ghost mut found: Seq<Seq<u8>> = Seq::empty();
    proof {
        assert(trie.children@.skip(0) =~= trie.children@);
        lemma_push_frame(*grid, Seq::empty(), (*trie, 0int, Seq::<u8>::empty()));
        assert(frames =~= Seq::<(Trie, int, Seq<u8>)>::empty().push(
            (*trie, 0int, Seq::<u8>::empty()),
        ));
        assert(found + pending(*grid, frames) =~= found_words(*grid, *trie));
    }
    while trie_stack.len() > 0
        invariant
            trie.wf(),
            frontier.wf(*grid),
            trie_stack@.len() == frames.len(),
            forall|k: int| 0 <= k < frames.len() ==> frame_ok(trie_stack@, frames, k),
            frames.len() > 0 ==> frontier.word_stack@ == frames.last().2,
            result@.len() == found.len(),
            forall|i: int| 0 <= i < found.len() ==> (#[trigger] result@[i])@ == as_text(found[i]),
            found + pending(*grid, frames) == found_words(*grid, *trie),
        decreases stack_weight(frames),
    {
        let ghost node = frames.last().0;
        let ghost from = frames.last().1;
        let ghost prefix = frames.last().2;
        let ghost below = frames.drop_last();
        let ghost old_stack = trie_stack@;
        let ghost top_at = frames.len() - 1;
        assert(frame_ok(old_stack, frames, top_at));
        assert(frames =~= below.push((node, from, prefix)));
        proof {
            lemma_push_frame(*grid, below, (node, from, prefix));
        }
        let top = trie_stack.pop().unwrap();
        let trie_len = top.0;
        let sibs = top.1;
        assert(forall|k: int| 0 <= k < below.len() ==> frame_ok(old_stack, frames, k));
        match first_sub(sibs) {
            Some((subtrie, rest)) => {
                let ghost at = from + (sibs@.len() - rest@.len() - 1);
                let ghost waiting = below.push((node, at + 1, prefix));
                let ghost sub = *subtrie;
                proof {
                    assert(node.children@[at] == sibs@[at - from]);
                    assert forall|i: int| from <= i < at implies (#[trigger] node.children@[i]) is None by {
                        assert(node.children@[i] == sibs@[i - from]);
                    }
                    lemma_skip_empty(*grid, node, from, at, prefix);
                    assert(rest@ =~= node.children@.skip(at + 1));
                    assert(sub.wf() && sub.bytes@.len() > 0);
                    lemma_push_frame(*grid, below, (node, at + 1, prefix));
                    assert(prefix + sub.bytes@.take(0) =~= prefix);
                }
                trie_stack.push((trie_len, rest));
                let lev_prev = frontier.level_stack.len();
                let label = subtrie.bytes;
                let mut j: usize = 0;
                let mut alive = true;
                while j < label.len() && alive
                    invariant
                        j <= label@.len(),
                        label@ == sub.bytes@,
                        frontier.wf(*grid),
                        frontier.word_stack@ == prefix + label@.take(j as int),
                        j == 0 ==> alive,
                        j > 0 ==> (alive <==> findable(*grid, frontier.word_stack@)),
                    decreases label@.len() - j,
                {
                    alive = frontier.advance(grid, label[j]);
                    assert(prefix + label@.take(j + 1) =~= (prefix + label@.take(j as int)).push(
                        label@[j as int],
                    ));
                    j += 1;
                }
                let ghost w = prefix + label@;
                if alive {
                    assert(label@.take(j as int) =~= label@);
                    trie_stack.push((label.len(), subtrie.children.as_slice()));
                    proof {
                        frames = waiting.push((sub, 0, w));
                        lemma_push_frame(*grid, waiting, (sub, 0, w));
                        assert(sub.children@.skip(0) =~= sub.children@);
                        assert(w.take(prefix.len() as int) =~= prefix);
                        assert forall|k: int| 0 <= k < frames.len() implies frame_ok(
                            trie_stack@,
                            frames,
                            k,
                        ) by {
                            if k < below.len() {
                                assert(frame_ok(old_stack, below.push((node, from, prefix)), k));
                            }
                        }
                    }
                    let ghost so_far = found;
                    if subtrie.end {
                        let bytes = frontier.word_stack.clone();
                        assert(bytes@ =~= frontier.word_stack@);
                        let text = word_text(bytes);
                        result.push(text);
                        proof {
                            found = found.push(w);
                        }
                    }
                    proof {
                        let here = if sub.end {
                            seq![w]
                        } else {
                            Seq::<Seq<u8>>::empty()
                        };
                        let under = found_below(*grid, sub, 0, w);
                        let beside = found_below(*grid, node, at + 1, prefix);
                        let rest_of = pending(*grid, below);
                        assert(frontier.word_stack@ == w);
                        assert(findable(*grid, w));
                        assert(found_at(*grid, sub, prefix) == here + under);
                        assert(found_below(*grid, node, at, prefix) == (here + under) + beside);
                        assert(found == so_far + here);
                        assert(pending(*grid, frames) == under + (beside + rest_of));
                        assert((so_far + here) + (under + (beside + rest_of)) =~= so_far + (((here
                            + under) + beside) + rest_of));
                    }
                } else {
                    proof {
                        let cut = prefix.len() + j;
                        assert(w.take(cut as int) =~= prefix + label@.take(j as int));
                        if findable(*grid, w) {
                            lemma_findable_prefix(*grid, w, cut as int);
                        }
                        assert(found_at(*grid, sub, prefix) =~= Seq::<Seq<u8>>::empty());
                    }
                    frontier.rewind(lev_prev);
                    proof {
                        frames = waiting;
                        assert(frontier.word_stack@ =~= prefix);
                        assert forall|k: int| 0 <= k < frames.len() implies frame_ok(
                            trie_stack@,
                            frames,
                            k,
                        ) by {
                            if k < below.len() {
                                assert(frame_ok(old_stack, below.push((node, from, prefix)), k));
                            }
                        }
                        assert(found + pending(*grid, frames) =~= found_words(*grid, *trie));
                    }
                }
            },
            None => {
                proof {
                    assert forall|i: int| from <= i < node.children@.len() implies (
                    #[trigger] node.children@[i]) is None by {
                        assert(node.children@[i] == sibs@[i - from]);
                    }
                    lemma_nothing_below(*grid, node, from, prefix);
                }
                if trie_len > 0 {
                    let new_pos = frontier.level_stack.len() - trie_len;
                    frontier.rewind(new_pos);
                }
                proof {
                    frames = below;
                    assert forall|k: int| 0 <= k < frames.len() implies frame_ok(
                        trie_stack@,
                        frames,
                        k,
                    ) by {
                        assert(frame_ok(old_stack, below.push((node, from, prefix)), k));
                    }
                    assert(found + pending(*grid, frames) =~= found_words(*grid, *trie));
                }
            },
        }
    }
    proof {
        assert(frames =~= Seq::empty());
        assert(found =~= found_words(*grid, *trie));
        assert(texts_of(result@) =~= found_words(*grid, *trie).map_values(
            |w: Seq<u8>| as_text(w),
        ));
        lemma_found_ascending(*grid, *trie);
        assert forall|w: Seq<u8>| #[trigger]
            found_words(*grid, *trie).contains(w) <==> trie.accepts_below(w) && findable(
                *grid,
                w,
            ) by {
            lemma_found_words(*grid, *trie, w);
        }
    }
    result
}

/// A word starts with `a` followed by `b` exactly when it starts with `a`
/// and goes on with `b`.
proof fn lemma_prefix_concat(a: Seq<u8>, b: Seq<u8>, w: Seq<u8>)
    ensures
        (a + b).is_prefix_of(w) <==> a.is_prefix_of(w) && b.is_prefix_of(w.skip(a.len() as int)),
        (a + b).is_prefix_of(w) ==> w.skip(a.len() as int).skip(b.len() as int) == w.skip(
            (a + b).len() as int,
        ),
{
    let n = a.len() as int;
    let m = b.len() as int;
    if (a + b).is_prefix_of(w) {
        assert((a + b) == w.subrange(0, n + m));
        assert forall|i: int| 0 <= i < n implies a[i] == w[i] by {
            assert((a + b)[i] == w.subrange(0, n + m)[i]);
        }
        assert(a =~= w.subrange(0, n));
        assert forall|i: int| 0 <= i < m implies b[i] == w.skip(n)[i] by {
            assert((a + b)[n + i] == w.subrange(0, n + m)[n + i]);
        }
        assert(b =~= w.skip(n).subrange(0, m));
        assert(w.skip(n).skip(m) =~= w.skip(n + m));
    }
    if a.is_prefix_of(w) && b.is_prefix_of(w.skip(n)) {
        assert(a == w.subrange(0, n));
        assert(b == w.skip(n).subrange(0, m));
        assert forall|i: int| 0 <= i < n + m implies (a + b)[i] == w[i] by {
            if i < n {
                assert(a[i] == w.subrange(0, n)[i]);
            } else {
                assert(b[i - n] == w.skip(n).subrange(0, m)[i - n]);
            }
        }
        assert((a + b) =~= w.subrange(0, n + m));
    }
}

/// The words found at a node are the findable words that are `prefix`
/// followed by a word that the node accepts.
pub proof fn lemma_found_at(g: Grid, node: Trie, prefix: Seq<u8>, w: Seq<u8>)
    requires
        node.wf(),
    ensures
        found_at(g, node, prefix).contains(w) <==> prefix.is_prefix_of(w) && node.accepts(
            w.skip(prefix.len() as int),
        ) && findable(g, w),
    decreases node, node.children@.len() + 1,
{
    let label = node.bytes@;
    let whole = prefix + label;
    let tail = w.skip(prefix.len() as int);
    let rest = w.skip(whole.len() as int);
    lemma_prefix_concat(prefix, label, w);
    if findable(g, whole) {
        let here = if node.end {
            seq![whole]
        } else {
            Seq::<Seq<u8>>::empty()
        };
        let under = found_below(g, node, 0, whole);
        lemma_found_below(g, node, 0, whole, w);
        lemma_seq_concat_contains_all_elements(here, under, w);
        if node.end {
            assert(here[0] == whole);
        }
        if whole.is_prefix_of(w) {
            assert(tail.skip(label.len() as int) == rest);
            if rest.len() == 0 {
                assert(w =~= whole);
            }
        }
        if w == whole {
            assert(whole.is_prefix_of(w));
        }
    } else {
        if whole.is_prefix_of(w) && findable(g, w) {
            lemma_findable_prefix(g, w, whole.len() as int);
            assert(w.take(whole.len() as int) =~= whole);
        }
    }
}

/// The words found through the slots `from..` of a node are the findable
/// words that are `prefix` followed by a word that goes on with one of the
/// letters of those slots and is accepted below the node.
pub proof fn lemma_found_below(g: Grid, node: Trie, from: int, prefix: Seq<u8>, w: Seq<u8>)
    requires
        node.wf(),
        0 <= from,
    ensures
        found_below(g, node, from, prefix).contains(w) <==> {
            let tail = w.skip(prefix.len() as int);
            &&& prefix.is_prefix_of(w)
            &&& tail.len() > 0
            &&& tail[0] - 97 >= from
            &&& node.accepts_below(tail)
            &&& findable(g, w)
        },
    decreases node, node.children@.len() - from,
{
    let tail = w.skip(prefix.len() as int);
    if from < node.children@.len() {
        let first = match node.children@[from] {
            Some(c) => found_at(g, *c, prefix),
            None => Seq::<Seq<u8>>::empty(),
        };
        let others = found_below(g, node, from + 1, prefix);
        lemma_found_below(g, node, from + 1, prefix, w);
        lemma_seq_concat_contains_all_elements(first, others, w);
        match node.children@[from] {
            Some(c) => {
                lemma_found_at(g, *c, prefix, w);
                if c.accepts(tail) {
                    assert(c.bytes@ == tail.subrange(0, c.bytes@.len() as int));
                    assert(tail[0] == c.bytes@[0]);
                    assert(node.child(tail[0]) == Some(c));
                }
            },
            None => {},
        }
    }
}

/// What the walk finds: the words accepted below the root of the trie that
/// some simple path of adjacent cells spells in the grid.
pub proof fn lemma_found_words(g: Grid, trie: Trie, w: Seq<u8>)
    requires
        trie.wf(),
    ensures
        found_words(g, trie).contains(w) <==> trie.accepts_below(w) && findable(g, w),
{
    lemma_found_below(g, trie, 0, Seq::empty(), w);
    assert(w.skip(0) =~= w);
}

/// The words found at a node come in dictionary order.
pub proof fn lemma_ascending_at(g: Grid, node: Trie, prefix: Seq<u8>)
    requires
        node.wf(),
    ensures
        ascending(found_at(g, node, prefix)),
    decreases node, node.children@.len() + 1,
{
    let whole = prefix + node.bytes@;
    if findable(g, whole) {
        let here = if node.end {
            seq![whole]
        } else {
            Seq::<Seq<u8>>::empty()
        };
        let under = found_below(g, node, 0, whole);
        lemma_ascending_below(g, node, 0, whole);
        assert forall|i: int, j: int| 0 <= i < here.len() && 0 <= j < under.len() implies lex_less(
            #[trigger] here[i],
            #[trigger] under[j],
        ) by {
            let u = under[j];
            assert(under.contains(u));
            lemma_found_below(g, node, 0, whole, u);
            assert(whole.take(whole.len() as int) =~= whole);
            assert(differ_at(whole, u, whole.len() as int));
        }
        lemma_ascending_concat(here, under);
    }
}

/// The words found through the slots `from..` of a node come in dictionary
/// order.
pub proof fn lemma_ascending_below(g: Grid, node: Trie, from: int, prefix: Seq<u8>)
    requires
        node.wf(),
        0 <= from,
    ensures
        ascending(found_below(g, node, from, prefix)),
    decreases node, node.children@.len() - from,
{
    if from < node.children@.len() {
        let first = match node.children@[from] {
            Some(c) => found_at(g, *c, prefix),
            None => Seq::<Seq<u8>>::empty(),
        };
        let others = found_below(g, node, from + 1, prefix);
        lemma_ascending_below(g, node, from + 1, prefix);
        match node.children@[from] {
            Some(c) => {
                lemma_ascending_at(g, *c, prefix);
                assert forall|i: int, j: int|
                    0 <= i < first.len() && 0 <= j < others.len() implies lex_less(
                    #[trigger] first[i],
                    #[trigger] others[j],
                ) by {
                    let x = first[i];
                    let y = others[j];
                    let k = prefix.len() as int;
                    assert(first.contains(x));
                    assert(others.contains(y));
                    lemma_found_at(g, *c, prefix, x);
                    lemma_found_below(g, node, from + 1, prefix, y);
                    assert(c.bytes@ == x.skip(k).subrange(0, c.bytes@.len() as int));
                    assert(x.skip(k)[0] == c.bytes@[0]);
                    assert(x.take(k) == prefix);
                    assert(y.take(k) == prefix);
                    assert(differ_at(x, y, k));
                }
            },
            None => {},
        }
        lemma_ascending_concat(first, others);
    }
}

/// The walk lists its words in dictionary order, so each of them once.
pub proof fn lemma_found_ascending(g: Grid, trie: Trie)
    requires
        trie.wf(),
    ensures
        ascending(found_words(g, trie)),
{
    lemma_ascending_below(g, trie, 0, Seq::empty());
}

/// What the walk lists depends on the trie only through the words that the
/// trie accepts: two tries with the same words, however they were built,
/// give the same list for every grid.
pub proof fn lemma_same_words_same_list(g: Grid, a: Trie, b: Trie)
    requires
        a.wf(),
        b.wf(),
        forall|w: Seq<u8>| a.accepts_below(w) <==> b.accepts_below(w),
    ensures
        found_words(g, a) == found_words(g, b),
{
    lemma_found_ascending(g, a);
    lemma_found_ascending(g, b);
    assert forall|w: Seq<u8>| found_words(g, a).contains(w) <==> found_words(g, b).contains(w) by {
        lemma_found_words(g, a, w);
        lemma_found_words(g, b, w);
    }
    lemma_ascending_unique(found_words(g, a), found_words(g, b));
}

/// Two trees built from word lists that hold the same words, in whatever
/// order, accept the same words and give the same list for every grid.
pub proof fn lemma_word_order_free(
    g: Grid,
    a: Trie,
    b: Trie,
    words_a: Seq<&'static [u8]>,
    words_b: Seq<&'static [u8]>,
)
    requires
        a.wf(),
        b.wf(),
        a.bytes@.len() == 0,
        b.bytes@.len() == 0,
        forall|w: Seq<u8>| a.accepts(w) <==> listed(words_a, w),
        forall|w: Seq<u8>| b.accepts(w) <==> listed(words_b, w),
        forall|w: Seq<u8>| listed(words_a, w) <==> listed(words_b, w),
    ensures
        forall|w: Seq<u8>| a.accepts(w) <==> b.accepts(w),
        found_words(g, a) == found_words(g, b),
{
    assert forall|w: Seq<u8>| a.accepts_below(w) <==> b.accepts_below(w) by {
        assert(w.skip(0) =~= w);
        if w.len() > 0 {
            assert(a.accepts(w) <==> a.accepts_below(w));
            assert(b.accepts(w) <==> b.accepts_below(w));
        }
    }
    lemma_same_words_same_list(g, a, b);
}

/// Two lists that both are what the walk finds for one grid and one trie
/// are the same list, word for word: a search run twice gives one answer.
pub proof fn lemma_search_repeats(g: Grid, trie: Trie, first: Seq<String>, second: Seq<String>)
    requires
        texts_of(first) == found_words(g, trie).map_values(|w: Seq<u8>| as_text(w)),
        texts_of(second) == found_words(g, trie).map_values(|w: Seq<u8>| as_text(w)),
    ensures
        first.len() == second.len(),
        forall|i: int| 0 <= i < first.len() ==> (#[trigger] first[i])@ == second[i]@,
{
    assert(texts_of(first).len() == first.len());
    assert(texts_of(second).len() == second.len());
    assert forall|i: int| 0 <= i < first.len() implies (#[trigger] first[i])@ == second[i]@ by {
        assert(texts_of(first)[i] == first[i]@);
        assert(texts_of(second)[i] == second[i]@);
    }
}

/// A trie without any child gives the empty list, whatever the grid.
pub proof fn lemma_empty_trie_finds_nothing(g: Grid, trie: Trie)
    requires
        trie.is_leaf(),
    ensures
        found_words(g, trie) == Seq::<Seq<u8>>::empty(),
{
    lemma_nothing_below(g, trie, 0, Seq::empty());
}

/// No word of the list is longer than the grid has cells.
pub proof fn lemma_found_fits(g: Grid, trie: Trie, w: Seq<u8>)
    requires
        trie.wf(),
        found_words(g, trie).contains(w),
    ensures
        0 < w.len() <= g.rows() * g.cols(),
{
    lemma_found_words(g, trie, w);
    lemma_findable_fits(g, w);
}

} // verus!
