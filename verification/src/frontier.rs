//! The path frontier: every live grid path of the prefix under exploration,
//! kept as entries of one log that point back at their predecessors.

use vstd::prelude::*;
use crate::geometry::{
    adjacent, all_cells_spec, lemma_all_cells_exact, lemma_all_cells_index, lemma_neighbours_exact,
    neighbours, neighbours_spec,
};
use crate::grid::Grid;

verus! {

/// The parent of an entry that starts a path.
pub const NO_PARENT: usize = usize::MAX;

/// Every entry's parent is the sentinel or stands earlier in the log.
pub open spec fn log_linked(log: Seq<(usize, (usize, usize))>) -> bool {
    forall|i: int| 0 <= i < log.len() ==> (#[trigger] log[i]).0 == NO_PARENT || log[i].0 < i
}

/// The cells of the path that ends in entry `i`, first cell first: what
/// following the parent links from `i` back to a sentinel passes through.
pub open spec fn chain(log: Seq<(usize, (usize, usize))>, i: int) -> Seq<(usize, usize)>
    decreases i,
{
    if i < 0 || i >= log.len() {
        Seq::empty()
    } else if log[i].0 != NO_PARENT && log[i].0 < i {
        chain(log, log[i].0 as int).push(log[i].1)
    } else {
        seq![log[i].1]
    }
}

/// The cells of `path` lie in the grid, each next to the one before it, and
/// none comes twice.
pub open spec fn is_simple_path(g: Grid, path: Seq<(usize, usize)>) -> bool {
    &&& forall|i: int| 0 <= i < path.len() ==> g.has(#[trigger] path[i])
    &&& forall|i: int| 0 < i < path.len() ==> adjacent(path[i - 1], #[trigger] path[i])
    &&& path.no_duplicates()
}

/// `path` is a simple path whose cells hold the bytes of `w`, one by one.
pub open spec fn spells(g: Grid, path: Seq<(usize, usize)>, w: Seq<u8>) -> bool {
    &&& path.len() == w.len()
    &&& is_simple_path(g, path)
    &&& forall|i: int| 0 <= i < path.len() ==> g.letter(#[trigger] path[i]) == w[i]
}

/// Some simple path in the grid spells `w`.
pub open spec fn findable(g: Grid, w: Seq<u8>) -> bool {
    exists|path: Seq<(usize, usize)>| spells(g, path, w)
}

/// The path of an entry does not change when the log grows or shrinks
/// behind it.
pub proof fn lemma_chain_stable(
    a: Seq<(usize, (usize, usize))>,
    b: Seq<(usize, (usize, usize))>,
    i: int,
)
    requires
        0 <= i < a.len(),
        i < b.len(),
        forall|k: int| 0 <= k <= i ==> a[k] == b[k],
    ensures
        chain(a, i) == chain(b, i),
    decreases i,
{
    if a[i].0 != NO_PARENT && a[i].0 < i {
        lemma_chain_stable(a, b, a[i].0 as int);
    }
}

/// A path is never empty and ends in the cell of its entry.
pub proof fn lemma_chain_last(log: Seq<(usize, (usize, usize))>, i: int)
    requires
        0 <= i < log.len(),
    ensures
        chain(log, i).len() > 0,
        chain(log, i).last() == log[i].1,
{
}

/// Whether the path that ends in entry `i` stays clear of cell `e`. With the
/// sentinel for `i` there is no path yet, and every cell is free.
pub fn verify_chain(position_stack: &Vec<(usize, (usize, usize))>, i: usize, e: (usize, usize)) -> (free:
    bool)
    requires
        log_linked(position_stack@),
        i == NO_PARENT || i < position_stack@.len(),
    ensures
        free == !chain(position_stack@, i as int).contains(e),
    decreases (if i == NO_PARENT { 0 } else { i + 1 }),
{
    assert(position_stack@.len() == position_stack.len());
    if i == NO_PARENT {
        return true;
    }
    let entry = position_stack[i];
    if entry.1.0 == e.0 && entry.1.1 == e.1 {
        proof {
            lemma_chain_last(position_stack@, i as int);
        }
        return false;
    }
    let free = verify_chain(position_stack, entry.0, e);
    proof {
        if entry.0 < i {
            vstd::seq_lib::lemma_seq_contains_after_push(
                chain(position_stack@, entry.0 as int),
                entry.1,
                e,
            );
        } else {
            assert(chain(position_stack@, i as int) =~= seq![entry.1]);
            assert(chain(position_stack@, entry.0 as int) =~= Seq::empty());
        }
    }
    free
}

/// A word that can be found is no longer than the grid has cells: a simple
/// path visits no cell twice.
pub proof fn lemma_findable_fits(g: Grid, w: Seq<u8>)
    requires
        findable(g, w),
    ensures
        w.len() <= g.rows() * g.cols(),
{
    let path = choose|path: Seq<(usize, usize)>| spells(g, path, w);
    let cells = all_cells_spec(g.dims());
    path.unique_seq_to_set();
    cells.lemma_cardinality_of_set();
    vstd::seq_lib::seq_to_set_is_finite(cells);
    assert forall|c: (usize, usize)| path.to_set().contains(c) implies cells.to_set().contains(
        c,
    ) by {
        let i = choose|i: int| 0 <= i < path.len() && path[i] == c;
        assert(g.has(path[i]));
        lemma_all_cells_exact(g.dims(), c);
    }
    vstd::set_lib::lemma_len_subset(path.to_set(), cells.to_set());
}

/// The entries that start a path on byte `b`: one for each cell of the grid
/// that holds `b`, in row-major order, each with the sentinel for its parent.
pub open spec fn seed_entries(g: Grid, b: u8) -> Seq<(usize, (usize, usize))> {
    all_cells_spec(g.dims()).filter(|c: (usize, usize)| g.letter(c) == b).map_values(
        |c: (usize, usize)| (NO_PARENT, c),
    )
}

/// The entries that lengthen the path of entry `i` by one cell holding `b`:
/// one for each neighbour of the path's last cell that holds `b` and is not
/// on the path yet, in the order of the neighbours.
pub open spec fn steps_from(g: Grid, log: Seq<(usize, (usize, usize))>, i: int, b: u8) -> Seq<
    (usize, (usize, usize)),
> {
    neighbours_spec(g.dims(), log[i].1).filter(
        |c: (usize, usize)| g.letter(c) == b && !chain(log, i).contains(c),
    ).map_values(|c: (usize, usize)| (i as usize, c))
}

/// The steps from each entry of `lo..hi`, entry after entry.
pub open spec fn steps_over(
    g: Grid,
    log: Seq<(usize, (usize, usize))>,
    lo: int,
    hi: int,
    b: u8,
) -> Seq<(usize, (usize, usize))>
    decreases hi - lo,
{
    if hi <= lo {
        Seq::empty()
    } else {
        steps_over(g, log, lo, hi - 1, b) + steps_from(g, log, hi - 1, b)
    }
}

/// Entry `i` belongs to the frame of the paths of length `n`.
pub open spec fn in_frame(log_len: int, levels: Seq<usize>, n: int, i: int) -> bool {
    &&& 1 <= n <= levels.len()
    &&& levels[n - 1] <= i
    &&& i < (if n < levels.len() { levels[n] as int } else { log_len })
}

/// The three logs fit together and describe the grid: frame after frame
/// starts where `levels` says, and the frame of length `n` holds the simple
/// paths that spell the first `n` bytes of `word`, each of them and nothing
/// else.
pub open spec fn frontier_ok(
    g: Grid,
    log: Seq<(usize, (usize, usize))>,
    levels: Seq<usize>,
    word: Seq<u8>,
) -> bool {
    &&& levels.len() == word.len()
    &&& log_linked(log)
    &&& levels.len() == 0 ==> log.len() == 0
    &&& levels.len() > 0 ==> levels[0] == 0
    &&& forall|k: int| 0 <= k < levels.len() ==> #[trigger] levels[k] <= log.len()
    &&& forall|j: int, k: int| 0 <= j <= k < levels.len() ==> levels[j] <= levels[k]
    &&& forall|n: int, i: int| #[trigger]
        in_frame(log.len() as int, levels, n, i) ==> spells(g, chain(log, i), word.take(n))
    &&& forall|n: int, path: Seq<(usize, usize)>|
        1 <= n <= levels.len() && #[trigger] spells(g, path, word.take(n)) ==> exists|i: int|
            #[trigger] in_frame(log.len() as int, levels, n, i) && chain(log, i) == path
}

/// A path that spells `w` and a free neighbour of its end that holds `b`
/// make a path that spells `w` followed by `b`.
pub proof fn lemma_spells_push(g: Grid, path: Seq<(usize, usize)>, w: Seq<u8>, c: (usize, usize), b: u8)
    requires
        spells(g, path, w),
        g.has(c),
        g.letter(c) == b,
        !path.contains(c),
        path.len() > 0 ==> adjacent(path.last(), c),
    ensures
        spells(g, path.push(c), w.push(b)),
{
    let longer = path.push(c);
    assert forall|i: int, j: int| 0 <= i < longer.len() && 0 <= j < longer.len() && i != j implies longer[i]
        != longer[j] by {
        if i == path.len() {
            assert(path[j] != c);
        } else if j == path.len() {
            assert(path[i] != c);
        }
    }
}

/// A path that spells a word without its last cell spells the word without
/// its last byte, and the last cell is a free neighbour of the shorter
/// path's end.
pub proof fn lemma_spells_pop(g: Grid, path: Seq<(usize, usize)>, w: Seq<u8>)
    requires
        spells(g, path, w),
        path.len() > 0,
    ensures
        spells(g, path.drop_last(), w.drop_last()),
        g.has(path.last()),
        g.letter(path.last()) == w.last(),
        !path.drop_last().contains(path.last()),
        path.len() > 1 ==> adjacent(path.drop_last().last(), path.last()),
{
    let shorter = path.drop_last();
    assert forall|i: int| 0 <= i < shorter.len() implies g.has(#[trigger] shorter[i]) by {
        assert(shorter[i] == path[i]);
    }
    assert forall|i: int| 0 < i < shorter.len() implies adjacent(shorter[i - 1], #[trigger] shorter[i]) by {
        assert(shorter[i] == path[i]);
    }
    assert forall|i: int| 0 <= i < shorter.len() implies g.letter(#[trigger] shorter[i]) == w.drop_last()[i] by {
        assert(shorter[i] == path[i]);
    }
    if shorter.contains(path.last()) {
        let i = choose|i: int| 0 <= i < shorter.len() && shorter[i] == path.last();
        assert(path[i] == path[path.len() - 1]);
    }
}

/// A word that can be found has every prefix findable too.
pub proof fn lemma_findable_prefix(g: Grid, w: Seq<u8>, n: int)
    requires
        findable(g, w),
        0 <= n <= w.len(),
    ensures
        findable(g, w.take(n)),
    decreases w.len() - n,
{
    if n == w.len() {
        assert(w.take(n) =~= w);
    } else {
        let path = choose|path: Seq<(usize, usize)>| spells(g, path, w);
        lemma_spells_pop(g, path, w);
        lemma_findable_prefix(g, w.drop_last(), n);
        assert(w.drop_last().take(n) =~= w.take(n));
    }
}

/// What filtering and then tagging a sequence of cells gives: the tag of
/// each cell that is kept, and no other entry.
proof fn lemma_kept_and_tagged(
    s: Seq<(usize, usize)>,
    keep: spec_fn((usize, usize)) -> bool,
    tag: spec_fn((usize, usize)) -> (usize, (usize, usize)),
)
    ensures
        s.filter(keep).map_values(tag).len() == s.filter(keep).len(),
        forall|j: int|
            0 <= j < s.filter(keep).len() ==> {
                &&& #[trigger] s.filter(keep).map_values(tag)[j] == tag(s.filter(keep)[j])
                &&& keep(s.filter(keep)[j])
                &&& s.contains(s.filter(keep)[j])
            },
        forall|c: (usize, usize)|
            s.contains(c) && keep(c) ==> #[trigger] s.filter(keep).map_values(tag).contains(tag(c)),
{
    let kept = s.filter(keep);
    let out = kept.map_values(tag);
    assert forall|j: int| 0 <= j < s.filter(keep).len() implies {
        &&& #[trigger] s.filter(keep).map_values(tag)[j] == tag(s.filter(keep)[j])
        &&& keep(s.filter(keep)[j])
        &&& s.contains(s.filter(keep)[j])
    } by {
        s.lemma_filter_pred(keep, j);
        assert(kept.contains(kept[j]));
        s.lemma_filter_contains_rev(keep, kept[j]);
        assert(out[j] == tag(kept[j]));
    }
    assert forall|c: (usize, usize)| s.contains(c) && keep(c) implies #[trigger] out.contains(
        tag(c),
    ) by {
        let i = choose|i: int| 0 <= i < s.len() && s[i] == c;
        s.lemma_filter_contains(keep, i);
        let j = choose|j: int| 0 <= j < kept.len() && kept[j] == c;
        assert(out[j] == tag(c));
    }
}

/// Each seed entry carries the sentinel and a cell of the grid that holds
/// `b`, and every such cell has its entry.
pub proof fn lemma_seed_entries(g: Grid, b: u8)
    ensures
        forall|j: int|
            0 <= j < seed_entries(g, b).len() ==> {
                &&& (#[trigger] seed_entries(g, b)[j]).0 == NO_PARENT
                &&& g.has(seed_entries(g, b)[j].1)
                &&& g.letter(seed_entries(g, b)[j].1) == b
            },
        forall|c: (usize, usize)|
            g.has(c) && g.letter(c) == b ==> seed_entries(g, b).contains((NO_PARENT, c)),
{
    let cells = all_cells_spec(g.dims());
    let keep = |c: (usize, usize)| g.letter(c) == b;
    let tag = |c: (usize, usize)| (NO_PARENT, c);
    lemma_kept_and_tagged(cells, keep, tag);
    assert forall|j: int| 0 <= j < seed_entries(g, b).len() implies {
        &&& (#[trigger] seed_entries(g, b)[j]).0 == NO_PARENT
        &&& g.has(seed_entries(g, b)[j].1)
        &&& g.letter(seed_entries(g, b)[j].1) == b
    } by {
        lemma_all_cells_exact(g.dims(), cells.filter(keep)[j]);
    }
    assert forall|c: (usize, usize)| g.has(c) && g.letter(c) == b implies seed_entries(
        g,
        b,
    ).contains((NO_PARENT, c)) by {
        lemma_all_cells_exact(g.dims(), c);
        assert(tag(c) == (NO_PARENT, c));
    }
}

/// Each step from entry `i` points back at `i` and goes to a neighbour of
/// its cell that holds `b` and is not on its path, and every such neighbour
/// has its entry.
pub proof fn lemma_steps_from(g: Grid, log: Seq<(usize, (usize, usize))>, i: int, b: u8)
    requires
        0 <= i < log.len(),
        log.len() <= usize::MAX,
    ensures
        forall|j: int|
            0 <= j < steps_from(g, log, i, b).len() ==> {
                &&& (#[trigger] steps_from(g, log, i, b)[j]).0 == i
                &&& g.has(steps_from(g, log, i, b)[j].1)
                &&& adjacent(log[i].1, steps_from(g, log, i, b)[j].1)
                &&& g.letter(steps_from(g, log, i, b)[j].1) == b
                &&& !chain(log, i).contains(steps_from(g, log, i, b)[j].1)
            },
        forall|c: (usize, usize)|
            g.has(c) && adjacent(log[i].1, c) && g.letter(c) == b && !chain(log, i).contains(c)
                ==> steps_from(g, log, i, b).contains((i as usize, c)),
{
    let around = neighbours_spec(g.dims(), log[i].1);
    let keep = |c: (usize, usize)| g.letter(c) == b && !chain(log, i).contains(c);
    let tag = |c: (usize, usize)| (i as usize, c);
    lemma_kept_and_tagged(around, keep, tag);
    assert forall|j: int| 0 <= j < steps_from(g, log, i, b).len() implies {
        &&& (#[trigger] steps_from(g, log, i, b)[j]).0 == i
        &&& g.has(steps_from(g, log, i, b)[j].1)
        &&& adjacent(log[i].1, steps_from(g, log, i, b)[j].1)
        &&& g.letter(steps_from(g, log, i, b)[j].1) == b
        &&& !chain(log, i).contains(steps_from(g, log, i, b)[j].1)
    } by {
        lemma_neighbours_exact(g.dims(), log[i].1, around.filter(keep)[j]);
    }
    assert forall|c: (usize, usize)|
        g.has(c) && adjacent(log[i].1, c) && g.letter(c) == b && !chain(log, i).contains(
            c,
        ) implies steps_from(g, log, i, b).contains((i as usize, c)) by {
        lemma_neighbours_exact(g.dims(), log[i].1, c);
        assert(tag(c) == (i as usize, c));
    }
}

/// Each step over `lo..hi` is a step from one entry of that range, and
/// every step from such an entry is among them.
pub proof fn lemma_steps_over(g: Grid, log: Seq<(usize, (usize, usize))>, lo: int, hi: int, b: u8)
    requires
        0 <= lo <= hi <= log.len(),
        log.len() <= usize::MAX,
    ensures
        forall|j: int|
            0 <= j < steps_over(g, log, lo, hi, b).len() ==> {
                let e = #[trigger] steps_over(g, log, lo, hi, b)[j];
                &&& lo <= e.0 < hi
                &&& g.has(e.1)
                &&& adjacent(log[e.0 as int].1, e.1)
                &&& g.letter(e.1) == b
                &&& !chain(log, e.0 as int).contains(e.1)
            },
        forall|e: (usize, (usize, usize))|
            lo <= e.0 < hi && g.has(e.1) && adjacent(log[e.0 as int].1, e.1) && g.letter(e.1) == b
                && !chain(log, e.0 as int).contains(e.1) ==> #[trigger] steps_over(
                g,
                log,
                lo,
                hi,
                b,
            ).contains(e),
    decreases hi - lo,
{
    if lo < hi {
        let head = steps_over(g, log, lo, hi - 1, b);
        let tail = steps_from(g, log, hi - 1, b);
        lemma_steps_over(g, log, lo, hi - 1, b);
        lemma_steps_from(g, log, hi - 1, b);
        assert forall|j: int| 0 <= j < (head + tail).len() implies {
            let e = #[trigger] (head + tail)[j];
            &&& lo <= e.0 < hi
            &&& g.has(e.1)
            &&& adjacent(log[e.0 as int].1, e.1)
            &&& g.letter(e.1) == b
            &&& !chain(log, e.0 as int).contains(e.1)
        } by {
            if j < head.len() {
                assert((head + tail)[j] == head[j]);
            } else {
                assert((head + tail)[j] == tail[j - head.len()]);
            }
        }
        assert forall|e: (usize, (usize, usize))|
            lo <= e.0 < hi && g.has(e.1) && adjacent(log[e.0 as int].1, e.1) && g.letter(e.1) == b
                && !chain(log, e.0 as int).contains(e.1) implies #[trigger] (head + tail).contains(
            e,
        ) by {
            vstd::seq_lib::lemma_seq_concat_contains_all_elements(head, tail, e);
            if e.0 == hi - 1 {
                assert(e == ((hi - 1) as usize, e.1));
            }
        }
    }
}

/// Where the log ends once only the frames of the first `n` lengths are
/// kept.
pub open spec fn frame_cut(log_len: int, levels: Seq<usize>, n: int) -> int {
    if 0 <= n < levels.len() {
        levels[n] as int
    } else {
        log_len
    }
}

/// The seed entries for `b` alone are the frontier of the one-byte word `b`.
pub proof fn lemma_seed_ok(g: Grid, b: u8)
    ensures
        frontier_ok(g, seed_entries(g, b), seq![0usize], seq![b]),
{
    let log = seed_entries(g, b);
    let levels = seq![0usize];
    let word = seq![b];
    lemma_seed_entries(g, b);
    assert(word.take(1) =~= word);
    assert forall|n: int, i: int| #[trigger] in_frame(log.len() as int, levels, n, i) implies spells(
        g,
        chain(log, i),
        word.take(n),
    ) by {
        assert(n == 1);
        assert(log[i].0 == NO_PARENT);
        assert(chain(log, i) =~= seq![log[i].1]);
    }
    assert forall|n: int, path: Seq<(usize, usize)>|
        1 <= n <= levels.len() && #[trigger] spells(g, path, word.take(n)) implies exists|i: int|
        #[trigger] in_frame(log.len() as int, levels, n, i) && chain(log, i) == path by {
        let c = path[0];
        assert(g.has(c) && g.letter(c) == b);
        assert(log.contains((NO_PARENT, c)));
        let i = choose|i: int| 0 <= i < log.len() && log[i] == (NO_PARENT, c);
        assert(chain(log, i) =~= path);
        assert(in_frame(log.len() as int, levels, n, i));
    }
}

/// Adding the steps over the last frame for `b` gives the frontier of the
/// word lengthened by `b`.
pub proof fn lemma_extend_ok(
    g: Grid,
    log: Seq<(usize, (usize, usize))>,
    levels: Seq<usize>,
    word: Seq<u8>,
    b: u8,
)
    requires
        frontier_ok(g, log, levels, word),
        levels.len() > 0,
        log.len() <= usize::MAX,
    ensures
        frontier_ok(
            g,
            log + steps_over(g, log, levels.last() as int, log.len() as int, b),
            levels.push(log.len() as usize),
            word.push(b),
        ),
{
    let d = levels.len() as int;
    let lo = levels.last() as int;
    let hi = log.len() as int;
    let more = steps_over(g, log, lo, hi, b);
    let log2 = log + more;
    let levels2 = levels.push(log.len() as usize);
    let word2 = word.push(b);
    lemma_steps_over(g, log, lo, hi, b);
    assert(word.take(d) =~= word);
    assert(word2.take(d + 1) =~= word2);
    assert forall|i: int| 0 <= i < log2.len() implies (#[trigger] log2[i]).0 == NO_PARENT || log2[i].0
        < i by {
        if i >= hi {
            assert(log2[i] == more[i - hi]);
        }
    }
    assert forall|n: int, i: int| #[trigger] in_frame(log2.len() as int, levels2, n, i) implies spells(
        g,
        chain(log2, i),
        word2.take(n),
    ) by {
        if n <= d {
            assert(in_frame(hi, levels, n, i));
            lemma_chain_stable(log, log2, i);
            assert(word2.take(n) =~= word.take(n));
        } else {
            let e = more[i - hi];
            assert(log2[i] == e);
            let p = e.0 as int;
            assert(in_frame(hi, levels, d, p));
            lemma_chain_stable(log, log2, p);
            lemma_chain_last(log, p);
            lemma_spells_push(g, chain(log, p), word, e.1, b);
            assert(chain(log2, i) == chain(log2, p).push(e.1));
        }
    }
    assert forall|n: int, path: Seq<(usize, usize)>|
        1 <= n <= levels2.len() && #[trigger] spells(g, path, word2.take(n)) implies exists|i: int|
        #[trigger] in_frame(log2.len() as int, levels2, n, i) && chain(log2, i) == path by {
        if n <= d {
            assert(word2.take(n) =~= word.take(n));
            let i = choose|i: int| #[trigger] in_frame(hi, levels, n, i) && chain(log, i) == path;
            lemma_chain_stable(log, log2, i);
            assert(in_frame(log2.len() as int, levels2, n, i));
        } else {
            lemma_spells_pop(g, path, word2);
            let shorter = path.drop_last();
            assert(word2.drop_last() =~= word);
            let p = choose|p: int| #[trigger] in_frame(hi, levels, d, p) && chain(log, p) == shorter;
            lemma_chain_last(log, p);
            let e = (p as usize, path.last());
            assert(more.contains(e));
            let j = choose|j: int| 0 <= j < more.len() && more[j] == e;
            let i = hi + j;
            assert(log2[i] == e);
            lemma_chain_stable(log, log2, p);
            assert(chain(log2, i) == chain(log2, p).push(e.1));
            assert(chain(log2, i) =~= path);
            assert(in_frame(log2.len() as int, levels2, n, i));
        }
    }
}

/// Cutting the logs back to the first `n` lengths leaves the frontier of
/// the first `n` bytes of the word.
pub proof fn lemma_rewind_ok(
    g: Grid,
    log: Seq<(usize, (usize, usize))>,
    levels: Seq<usize>,
    word: Seq<u8>,
    n: int,
)
    requires
        frontier_ok(g, log, levels, word),
        0 <= n <= levels.len(),
    ensures
        0 <= frame_cut(log.len() as int, levels, n) <= log.len(),
        frontier_ok(
            g,
            log.take(frame_cut(log.len() as int, levels, n)),
            levels.take(n),
            word.take(n),
        ),
{
    let cut = frame_cut(log.len() as int, levels, n);
    if n < levels.len() {
        assert(levels[n] <= log.len());
    }
    let log2 = log.take(cut);
    let levels2 = levels.take(n);
    let word2 = word.take(n);
    if n == 0 && levels.len() > 0 {
        assert(levels[0] == 0);
    }
    assert forall|m: int, i: int| #[trigger] in_frame(log2.len() as int, levels2, m, i) implies spells(
        g,
        chain(log2, i),
        word2.take(m),
    ) by {
        assert(levels2[m - 1] == levels[m - 1]);
        assert(in_frame(log.len() as int, levels, m, i));
        lemma_chain_stable(log, log2, i);
        assert(word2.take(m) =~= word.take(m));
    }
    assert forall|m: int, path: Seq<(usize, usize)>|
        1 <= m <= levels2.len() && #[trigger] spells(g, path, word2.take(m)) implies exists|i: int|
        #[trigger] in_frame(log2.len() as int, levels2, m, i) && chain(log2, i) == path by {
        assert(word2.take(m) =~= word.take(m));
        let i = choose|i: int| #[trigger] in_frame(log.len() as int, levels, m, i) && chain(log, i) == path;
        assert(levels2[m - 1] == levels[m - 1]);
        if m < n {
            assert(levels2[m] == levels[m]);
            assert(levels[m] <= levels[n - 1]);
        }
        assert(i < cut);
        lemma_chain_stable(log, log2, i);
        assert(in_frame(log2.len() as int, levels2, m, i));
    }
}

/// The state of one search: the position log, the start of each frame in
/// it, and the bytes of the prefix that the frames belong to.
pub struct Frontier {
    pub position_stack: Vec<(usize, (usize, usize))>,
    pub level_stack: Vec<usize>,
    pub word_stack: Vec<u8>,
}

impl Frontier {
    /// The logs fit together and describe grid `g`: see `frontier_ok`.
    pub open spec fn wf(&self, g: Grid) -> bool {
        frontier_ok(g, self.position_stack@, self.level_stack@, self.word_stack@)
    }

    /// The frontier of the empty prefix: nothing in any log.
    pub fn new() -> (f: Frontier)
        ensures
            f.position_stack@.len() == 0,
            f.level_stack@.len() == 0,
            f.word_stack@.len() == 0,
            forall|g: Grid| f.wf(g),
    {
        let f = Frontier {
            position_stack: Vec::new(),
            level_stack: Vec::new(),
            word_stack: Vec::new(),
        };
        assert forall|g: Grid| f.wf(g) by {
            assert(f.wf(g));
        }
        f
    }

    /// Appends an entry for every cell of the grid that holds `b`, each the
    /// start of a path.
    pub fn seed(&mut self, grid: &Grid, b: u8)
        ensures
            final(self).position_stack@ == old(self).position_stack@ + seed_entries(*grid, b),
            final(self).level_stack == old(self).level_stack,
            final(self).word_stack == old(self).word_stack,
    {
        let dims = grid.dim();
        let ghost start = self.position_stack@;
        let ghost cells = all_cells_spec(dims);
        let ghost keep = |c: (usize, usize)| grid.letter(c) == b;
        let ghost tag = |c: (usize, usize)| (NO_PARENT, c);
        assert(cells.take(0).filter(keep).map_values(tag) =~= Seq::empty()) by {
            cells.take(0).lemma_filter_len(keep);
        }
        assert(start + Seq::empty() =~= start);
        let mut i: usize = 0;
        while i < dims.0
            invariant
                i <= dims.0,
                dims == grid.dims(),
                cells == all_cells_spec(dims),
                keep == |c: (usize, usize)| grid.letter(c) == b,
                tag == |c: (usize, usize)| (NO_PARENT, c),
                self.position_stack@ == start + cells.take(i * dims.1).filter(keep).map_values(tag),
                self.level_stack == old(self).level_stack,
                self.word_stack == old(self).word_stack,
            decreases dims.0 - i,
        {
            let mut j: usize = 0;
            while j < dims.1
                invariant
                    i < dims.0,
                    j <= dims.1,
                    dims == grid.dims(),
                    cells == all_cells_spec(dims),
                    keep == |c: (usize, usize)| grid.letter(c) == b,
                    tag == |c: (usize, usize)| (NO_PARENT, c),
                    self.position_stack@ == start + cells.take(i * dims.1 + j).filter(
                        keep,
                    ).map_values(tag),
                    self.level_stack == old(self).level_stack,
                    self.word_stack == old(self).word_stack,
                decreases dims.1 - j,
            {
                let ghost k = i * dims.1 + j;
                let ghost before = cells.take(k).filter(keep);
                proof {
                    lemma_all_cells_index(dims, i as int, j as int);
                    assert(cells.take(k + 1) =~= cells.take(k).push((i, j)));
                    cells.take(k).lemma_filter_push((i, j), keep);
                }
                if grid.get((i, j)) == b {
                    self.position_stack.push((NO_PARENT, (i, j)));
                    assert(before.push((i, j)).map_values(tag) =~= before.map_values(tag).push(
                        (NO_PARENT, (i, j)),
                    ));
                    assert(self.position_stack@ =~= start + cells.take(k + 1).filter(
                        keep,
                    ).map_values(tag));
                }
                j += 1;
            }
            assert((i + 1) * dims.1 == i * dims.1 + dims.1) by (nonlinear_arith);
            i += 1;
        }
        assert(cells.take(dims.0 * dims.1) =~= cells);
    }

    /// Appends, for every entry from `lo` to the end of the log, an entry
    /// for each neighbour of its cell that holds `b` and is not on its path.
    pub fn extend(&mut self, grid: &Grid, lo: usize, b: u8)
        requires
            log_linked(old(self).position_stack@),
            lo <= old(self).position_stack@.len(),
        ensures
            final(self).position_stack@ == old(self).position_stack@ + steps_over(
                *grid,
                old(self).position_stack@,
                lo as int,
                old(self).position_stack@.len() as int,
                b,
            ),
            final(self).level_stack == old(self).level_stack,
            final(self).word_stack == old(self).word_stack,
    {
        let dims = grid.dim();
        let hi = self.position_stack.len();
        let ghost start = self.position_stack@;
        assert(start + Seq::empty() =~= start);
        let mut p: usize = lo;
        while p < hi
            invariant
                lo <= p <= hi,
                hi == start.len(),
                dims == grid.dims(),
                log_linked(start),
                log_linked(self.position_stack@),
                self.position_stack@ == start + steps_over(*grid, start, lo as int, p as int, b),
                self.level_stack == old(self).level_stack,
                self.word_stack == old(self).word_stack,
            decreases hi - p,
        {
            let cell = self.position_stack[p].1;
            let around = neighbours(dims, cell);
            let ghost base = self.position_stack@;
            let ghost keep = |c: (usize, usize)|
                grid.letter(c) == b && !chain(start, p as int).contains(c);
            let ghost tag = |c: (usize, usize)| (p, c);
            assert(around@.take(0).filter(keep).map_values(tag) =~= Seq::empty()) by {
                around@.take(0).lemma_filter_len(keep);
            }
            assert(base + Seq::empty() =~= base);
            let mut q: usize = 0;
            while q < around.len()
                invariant
                    q <= around@.len(),
                    p < hi,
                    hi == start.len(),
                    hi <= self.position_stack@.len(),
                    dims == grid.dims(),
                    around@ == neighbours_spec(dims, cell),
                    keep == |c: (usize, usize)|
                        grid.letter(c) == b && !chain(start, p as int).contains(c),
                    tag == |c: (usize, usize)| (p, c),
                    log_linked(self.position_stack@),
                    forall|k: int| 0 <= k < hi ==> self.position_stack@[k] == start[k],
                    self.position_stack@ == base + around@.take(q as int).filter(keep).map_values(
                        tag,
                    ),
                    self.level_stack == old(self).level_stack,
                    self.word_stack == old(self).word_stack,
                decreases around@.len() - q,
            {
                let nb = around[q];
                let ghost before = around@.take(q as int).filter(keep);
                proof {
                    assert(around@.contains(nb));
                    lemma_neighbours_exact(dims, cell, nb);
                    assert(around@.take(q + 1) =~= around@.take(q as int).push(nb));
                    around@.take(q as int).lemma_filter_push(nb, keep);
                    lemma_chain_stable(start, self.position_stack@, p as int);
                }
                if grid.get(nb) == b && verify_chain(&self.position_stack, p, nb) {
                    self.position_stack.push((p, nb));
                    assert(before.push(nb).map_values(tag) =~= before.map_values(tag).push((p, nb)));
                    assert(self.position_stack@ =~= base + around@.take(q + 1).filter(
                        keep,
                    ).map_values(tag));
                }
                q += 1;
            }
            proof {
                assert(around@.take(around@.len() as int) =~= around@);
                assert(cell == start[p as int].1);
                assert(steps_from(*grid, start, p as int, b) == around@.filter(keep).map_values(
                    tag,
                ));
                assert(self.position_stack@ =~= start + steps_over(
                    *grid,
                    start,
                    lo as int,
                    p + 1,
                    b,
                ));
            }
            p += 1;
        }
    }
}

/// In a well-formed frontier the path of every entry visits no cell twice.
pub proof fn lemma_path_never_repeats(f: Frontier, g: Grid, n: int, i: int)
    requires
        f.wf(g),
        in_frame(f.position_stack@.len() as int, f.level_stack@, n, i),
    ensures
        chain(f.position_stack@, i).no_duplicates(),
{
    assert(spells(g, chain(f.position_stack@, i), f.word_stack@.take(n)));
}

/// In a well-formed frontier each cell on the path of an entry lies in the
/// grid at Chebyshev distance one from the cell before it, and the path
/// spells the prefix of its frame's length.
pub proof fn lemma_path_steps_adjacent(f: Frontier, g: Grid, n: int, i: int, k: int)
    requires
        f.wf(g),
        in_frame(f.position_stack@.len() as int, f.level_stack@, n, i),
        0 < k < n,
    ensures
        chain(f.position_stack@, i).len() == n,
        g.has(chain(f.position_stack@, i)[k]),
        adjacent(chain(f.position_stack@, i)[k - 1], chain(f.position_stack@, i)[k]),
        g.letter(chain(f.position_stack@, i)[k]) == f.word_stack@[k],
{
    assert(spells(g, chain(f.position_stack@, i), f.word_stack@.take(n)));
}

/// In a well-formed frontier of a prefix that is not empty, the last frame
/// holds an entry exactly where the grid can spell the prefix.
pub proof fn lemma_frame_alive(f: Frontier, g: Grid)
    requires
        f.wf(g),
        f.level_stack@.len() > 0,
    ensures
        findable(g, f.word_stack@) <==> f.level_stack@.last() < f.position_stack@.len(),
{
    let n = f.level_stack@.len() as int;
    let word = f.word_stack@;
    let start = f.level_stack@.last() as int;
    assert(word.take(n) =~= word);
    if start < f.position_stack@.len() {
        assert(in_frame(f.position_stack@.len() as int, f.level_stack@, n, start));
        assert(spells(g, chain(f.position_stack@, start), word.take(n)));
    }
    if findable(g, word) {
        let path = choose|path: Seq<(usize, usize)>| spells(g, path, word);
        assert(spells(g, path, word.take(n)));
        let i = choose|i: int| #[trigger]
            in_frame(f.position_stack@.len() as int, f.level_stack@, n, i) && chain(
                f.position_stack@,
                i,
            ) == path;
        assert(start <= i < f.position_stack@.len());
    }
}

/// The empty word is spelled by the empty path.
pub proof fn lemma_empty_findable(g: Grid)
    ensures
        findable(g, Seq::<u8>::empty()),
{
    assert(spells(g, Seq::<(usize, usize)>::empty(), Seq::<u8>::empty()));
}

impl Frontier {
    /// Lengthens the prefix by byte `b` and opens the frame of its paths:
    /// seed entries where the prefix was empty, else the steps over the
    /// frame before. Tells whether the new frame holds any path, which is
    /// whether the lengthened prefix can be found in the grid.
    pub fn advance(&mut self, grid: &Grid, b: u8) -> (alive: bool)
        requires
            old(self).wf(*grid),
        ensures
            final(self).wf(*grid),
            final(self).word_stack@ == old(self).word_stack@.push(b),
            final(self).level_stack@ == old(self).level_stack@.push(
                old(self).position_stack@.len() as usize,
            ),
            final(self).position_stack@ == old(self).position_stack@ + (if old(
                self,
            ).level_stack@.len() == 0 {
                seed_entries(*grid, b)
            } else {
                steps_over(
                    *grid,
                    old(self).position_stack@,
                    old(self).level_stack@.last() as int,
                    old(self).position_stack@.len() as int,
                    b,
                )
            }),
            alive == (final(self).position_stack@.len() > old(self).position_stack@.len()),
            alive <==> findable(*grid, final(self).word_stack@),
    {
        let frame_start = self.position_stack.len();
        self.word_stack.push(b);
        let depth = self.level_stack.len();
        if depth > 0 {
            let last_start = self.level_stack[depth - 1];
            self.level_stack.push(frame_start);
            self.extend(grid, last_start, b);
            proof {
                lemma_extend_ok(
                    *grid,
                    old(self).position_stack@,
                    old(self).level_stack@,
                    old(self).word_stack@,
                    b,
                );
            }
        } else {
            self.level_stack.push(0);
            self.seed(grid, b);
            proof {
                lemma_seed_ok(*grid, b);
                assert(old(self).position_stack@ + seed_entries(*grid, b) =~= seed_entries(
                    *grid,
                    b,
                ));
                assert(self.level_stack@ =~= seq![0usize]);
                assert(self.word_stack@ =~= seq![b]);
            }
        }
        let alive = self.position_stack.len() > frame_start;
        proof {
            lemma_frame_alive(*self, *grid);
        }
        alive
    }

    /// Cuts the logs back to the first `depth` bytes of the prefix, dropping
    /// every frame that belongs to a longer one. Nothing happens where the
    /// prefix is no longer than `depth`.
    pub fn rewind(&mut self, depth: usize)
        ensures
            final(self).level_stack@ == (if depth < old(self).level_stack@.len() {
                old(self).level_stack@.take(depth as int)
            } else {
                old(self).level_stack@
            }),
            final(self).position_stack@ == (if depth < old(self).level_stack@.len() && old(
                self,
            ).level_stack@[depth as int] <= old(self).position_stack@.len() {
                old(self).position_stack@.take(old(self).level_stack@[depth as int] as int)
            } else {
                old(self).position_stack@
            }),
            final(self).word_stack@ == (if depth < old(self).word_stack@.len() {
                old(self).word_stack@.take(depth as int)
            } else {
                old(self).word_stack@
            }),
            forall|g: Grid| #[trigger] old(self).wf(g) ==> final(self).wf(g),
    {
        if depth < self.level_stack.len() {
            self.position_stack.truncate(self.level_stack[depth]);
            self.level_stack.truncate(depth);
        }
        self.word_stack.truncate(depth);
        assert forall|g: Grid| #[trigger] old(self).wf(g) implies self.wf(g) by {
            if depth < old(self).level_stack@.len() {
                lemma_rewind_ok(
                    g,
                    old(self).position_stack@,
                    old(self).level_stack@,
                    old(self).word_stack@,
                    depth as int,
                );
                assert(frame_cut(
                    old(self).position_stack@.len() as int,
                    old(self).level_stack@,
                    depth as int,
                ) == old(self).level_stack@[depth as int]);
            } else {
                assert(self.word_stack@ =~= old(self).word_stack@);
            }
        }
    }
}

} // verus!
