//! The dictionary: a radix trie over lowercase bytes.

use vstd::prelude::*;
use vstd::slice::slice_subrange;

verus! {

/// `b` is one of the 26 lowercase letters.
pub open spec fn is_letter(b: u8) -> bool {
    97 <= b <= 122
}

/// Every byte of `s` is a lowercase letter.
pub open spec fn all_letters(s: Seq<u8>) -> bool {
    forall|i: int| 0 <= i < s.len() ==> is_letter(#[trigger] s[i])
}

/// `n` is the length of the longest prefix that `a` and `b` have in common.
pub open spec fn is_shared_len(a: Seq<u8>, b: Seq<u8>, n: int) -> bool {
    &&& 0 <= n <= a.len()
    &&& n <= b.len()
    &&& forall|i: int| 0 <= i < n ==> a[i] == b[i]
    &&& n < a.len() && n < b.len() ==> a[n] != b[n]
}

/// A node of the trie: the bytes of the edge that leads to it, whether a word
/// ends here, and one slot for each letter that may follow.
pub struct Trie {
    pub end: bool,
    pub bytes: &'static [u8],
    pub children: Vec<Option<Box<Trie>>>,
}

impl Trie {
    /// The node in the slot of letter `b`, if any.
    pub open spec fn child(&self, b: u8) -> Option<Box<Trie>> {
        if is_letter(b) && b - 97 < self.children@.len() {
            self.children@[b - 97]
        } else {
            None
        }
    }

    /// A walk from this node along the bytes of `w` uses up this node's own
    /// label first, then goes down slot by slot, and ends exactly on a node
    /// where a word ends.
    pub open spec fn accepts(&self, w: Seq<u8>) -> bool
        decreases self,
    {
        self.bytes@.is_prefix_of(w) && {
            let rest = w.skip(self.bytes@.len() as int);
            if rest.len() == 0 {
                self.end
            } else {
                match self.child(rest[0]) {
                    Some(c) => c.accepts(rest),
                    None => false,
                }
            }
        }
    }

    /// A walk that starts in one of this node's slots, leaving the node's
    /// own label and word mark aside, accepts `w`. This is how a search
    /// reads a root.
    pub open spec fn accepts_below(&self, w: Seq<u8>) -> bool {
        w.len() > 0 && match self.child(w[0]) {
            Some(c) => c.accepts(w),
            None => false,
        }
    }

    /// The node has 26 slots, its label holds letters only, and each child
    /// sits in the slot of its label's first byte and is well formed itself.
    pub open spec fn wf(&self) -> bool
        decreases self,
    {
        &&& self.children@.len() == 26
        &&& all_letters(self.bytes@)
        &&& forall|i: int|
            0 <= i < self.children@.len() ==> match #[trigger] self.children@[i] {
                Some(c) => c.bytes@.len() > 0 && c.bytes@[0] == 97 + i && c.wf(),
                None => true,
            }
    }

    /// A word ends at this node, or at least two of its slots are taken.
    pub open spec fn branches(&self) -> bool {
        self.end || exists|i: int, j: int|
            0 <= i < j < self.children@.len() && (#[trigger] self.children@[i]) is Some && (
            #[trigger] self.children@[j]) is Some
    }

    /// Labels are as long as they can be: below this node there is no node
    /// that ends no word and has a single child, whose label it could take
    /// over.
    pub open spec fn compact(&self) -> bool
        decreases self,
    {
        forall|i: int|
            0 <= i < self.children@.len() ==> match #[trigger] self.children@[i] {
                Some(c) => c.branches() && c.compact(),
                None => true,
            }
    }

    /// No slot of this node is taken.
    pub open spec fn is_leaf(&self) -> bool {
        forall|i: int| 0 <= i < self.children@.len() ==> (#[trigger] self.children@[i]) is None
    }
}

/// Twenty-six empty slots.
fn empty_slots() -> (v: Vec<Option<Box<Trie>>>)
    ensures
        v@.len() == 26,
        forall|i: int| 0 <= i < 26 ==> (#[trigger] v@[i]) is None,
{
    let mut v: Vec<Option<Box<Trie>>> = Vec::new();
    let mut i: usize = 0;
    while i < 26
        invariant
            i <= 26,
            v@.len() == i,
            forall|k: int| 0 <= k < i ==> (#[trigger] v@[k]) is None,
        decreases 26 - i,
    {
        v.push(None);
        i += 1;
    }
    v
}

/// The length of the longest common prefix of `a` and `b`.
pub fn shared_len(a: &[u8], b: &[u8]) -> (n: usize)
    ensures
        is_shared_len(a@, b@, n as int),
{
    let mut n: usize = 0;
    while n < a.len() && n < b.len() && a[n] == b[n]
        invariant
            n <= a@.len(),
            n <= b@.len(),
            forall|i: int| 0 <= i < n ==> a@[i] == b@[i],
        decreases a@.len() - n,
    {
        n += 1;
    }
    n
}

impl Trie {
    /// An empty dictionary: a root with an empty label and no word.
    pub fn new() -> (t: Trie)
        ensures
            t.wf(),
            t.is_leaf(),
            !t.end,
            t.bytes@.len() == 0,
            t.compact(),
            forall|w: Seq<u8>| !t.accepts(w),
    {
        let bytes: &'static [u8] = &[];
        Trie { end: false, bytes, children: empty_slots() }
    }

    /// A node without children at which the word `bytes` ends.
    pub fn from_bytes(bytes: &'static [u8]) -> (t: Trie)
        ensures
            t.end,
            t.bytes@ == bytes@,
            t.is_leaf(),
            t.children@.len() == 26,
            t.compact(),
            forall|w: Seq<u8>| t.accepts(w) <==> w == bytes@,
    {
        let t = Trie { end: true, bytes, children: empty_slots() };
        assert forall|w: Seq<u8>| t.accepts(w) <==> w == bytes@ by {
            if t.accepts(w) {
                assert(w =~= bytes@);
            }
            if w == bytes@ {
                assert(w.skip(bytes@.len() as int).len() == 0);
            }
        }
        t
    }
}

/// Reading a word past a prefix of length `p + q` is reading it past `p`
/// and then past `q`.
proof fn lemma_split_prefix(label: Seq<u8>, p: int, w: Seq<u8>)
    requires
        0 <= p <= label.len(),
    ensures
        label.is_prefix_of(w) <==> label.take(p).is_prefix_of(w) && label.skip(p).is_prefix_of(
            w.skip(p),
        ),
        label.is_prefix_of(w) ==> w.skip(p).skip(label.len() - p) == w.skip(label.len() as int),
{
    if label.is_prefix_of(w) {
        assert(label.take(p) =~= w.take(p));
        assert(label.skip(p) =~= w.skip(p).subrange(0, label.len() - p));
        assert(w.skip(p).skip(label.len() - p) =~= w.skip(label.len() as int));
    }
    if label.take(p).is_prefix_of(w) && label.skip(p).is_prefix_of(w.skip(p)) {
        assert(label.take(p) == w.subrange(0, p));
        assert(label.skip(p) == w.skip(p).subrange(0, label.len() - p));
        assert forall|i: int| 0 <= i < label.len() implies label[i] == w[i] by {
            if i < p {
                assert(label.take(p)[i] == w.subrange(0, p)[i]);
            } else {
                assert(label.skip(p)[i - p] == w.skip(p).subrange(0, label.len() - p)[i - p]);
            }
        }
        assert(label =~= w.subrange(0, label.len() as int));
    }
}

impl Trie {
    /// Cuts this node's label after its first `p` bytes. The node keeps the
    /// head of the label and gets one child, which takes the tail together
    /// with the word mark and the children that the node had.
    fn split(&mut self, p: usize)
        requires
            old(self).wf(),
            p < old(self).bytes@.len(),
        ensures
            final(self).wf(),
            final(self).bytes@ == old(self).bytes@.take(p as int),
            !final(self).end,
            forall|i: int|
                0 <= i < 26 && i != old(self).bytes@[p as int] - 97 ==> (
                #[trigger] final(self).children@[i]) is None,
            final(self).children@[old(self).bytes@[p as int] - 97] is Some,
            old(self).compact() && old(self).branches() ==> final(self).compact(),
            forall|w: Seq<u8>| final(self).accepts(w) <==> old(self).accepts(w),
    {
        let head = slice_subrange(self.bytes, 0, p);
        let mut lower = Trie { end: false, bytes: head, children: empty_slots() };
        std::mem::swap(self, &mut lower);
        lower.bytes = slice_subrange(lower.bytes, p, lower.bytes.len());
        let b = lower.bytes[0];
        assert(b == old(self).bytes@[p as int]);
        assert(is_letter(b));
        let idx = (b - 97) as usize;
        let ghost low = lower;
        assert(low.wf()) by {
            assert(low.children@ == old(self).children@);
            assert(all_letters(low.bytes@)) by {
                assert forall|i: int| 0 <= i < low.bytes@.len() implies is_letter(
                    #[trigger] low.bytes@[i],
                ) by {
                    assert(low.bytes@[i] == old(self).bytes@[i + p]);
                }
            }
        }
        self.children.set(idx, Some(Box::new(lower)));
        assert(old(self).compact() && old(self).branches() ==> low.compact() && low.branches());
        assert forall|w: Seq<u8>| self.accepts(w) <==> old(self).accepts(w) by {
            let label = old(self).bytes@;
            lemma_split_prefix(label, p as int, w);
            let rest = w.skip(p as int);
            assert(self.bytes@ == label.take(p as int));
            assert(self.child(b) == Some(Box::new(low)));
            if self.accepts(w) {
                assert(rest.len() > 0);
                assert(self.child(rest[0]) is Some);
                assert(rest[0] == b);
                assert(low.accepts(rest));
                assert(old(self).accepts(w));
            }
            if old(self).accepts(w) {
                assert(label.skip(p as int).is_prefix_of(rest));
                assert(rest.len() > 0);
                assert(rest[0] == label.skip(p as int)[0]);
                assert(low.accepts(rest));
                assert(self.accepts(w));
            }
        }
    }
}

impl Trie {
    /// Adds the word `bytes` below this node. Where the word leaves the
    /// node's label midway, the label is cut at that point first; a word
    /// that is already there stays as it is.
    pub fn insert(&mut self, bytes: &'static [u8])
        requires
            old(self).wf(),
            all_letters(bytes@),
        ensures
            final(self).wf(),
            forall|w: Seq<u8>| final(self).accepts(w) <==> old(self).accepts(w) || w == bytes@,
            final(self).bytes@.is_prefix_of(old(self).bytes@),
            is_shared_len(old(self).bytes@, bytes@, final(self).bytes@.len() as int),
            old(self).compact() && (old(self).branches() || old(self).bytes@.len() == 0)
                ==> final(self).compact(),
            old(self).compact() && old(self).branches() ==> final(self).branches(),
        decreases bytes@.len(), (if old(self).bytes@.len() == 0 { 1nat } else { 0nat }),
    {
        let p = shared_len(self.bytes, bytes);
        if p < self.bytes.len() {
            self.split(p);
        }
        let ghost mid = *self;
        assert(mid.bytes@ == old(self).bytes@.take(p as int));
        assert(mid.bytes@ =~= bytes@.take(p as int));
        let rest = slice_subrange(bytes, p, bytes.len());
        assert(all_letters(rest@)) by {
            assert forall|i: int| 0 <= i < rest@.len() implies is_letter(#[trigger] rest@[i]) by {
                assert(rest@[i] == bytes@[i + p]);
            }
        }
        assert(mid.bytes@.is_prefix_of(bytes@));
        if rest.len() == 0 {
            self.end = true;
            assert(bytes@ =~= mid.bytes@);
            assert forall|w: Seq<u8>| self.accepts(w) <==> mid.accepts(w) || w == bytes@ by {
                if mid.bytes@.is_prefix_of(w) {
                    let tail = w.skip(p as int);
                    if tail.len() == 0 {
                        assert(w =~= w.subrange(0, p as int));
                    } else {
                        assert(self.child(tail[0]) == mid.child(tail[0]));
                    }
                }
            }
            return ;
        }
        let b = rest[0];
        assert(b == bytes@[p as int]);
        assert(is_letter(b));
        let idx = (b - 97) as usize;
        let mut slot: Option<Box<Trie>> = None;
        std::mem::swap(&mut slot, &mut self.children[idx]);
        let ghost before = slot;
        assert(before == mid.children@[idx as int]);
        let filled = match slot {
            Some(mut c) => {
                assert(c.wf());
                assert(c.bytes@[0] == rest@[0]);
                c.insert(rest);
                assert(c.bytes@.len() > 0);
                assert(c.bytes@[0] == b);
                c
            },
            None => Box::new(Trie::from_bytes(rest)),
        };
        let ghost node = *filled;
        assert(node.wf() && node.bytes@.len() > 0 && node.bytes@[0] == b);
        assert(forall|x: Seq<u8>|
            node.accepts(x) <==> ((before is Some && before->0.accepts(x)) || x == rest@));
        self.children.set(idx, Some(filled));
        assert(self.wf()) by {
            assert forall|i: int| 0 <= i < self.children@.len() implies match #[trigger] self.children@[i] {
                Some(c) => c.bytes@.len() > 0 && c.bytes@[0] == 97 + i && c.wf(),
                None => true,
            } by {
                if i != idx {
                    assert(self.children@[i] == mid.children@[i]);
                }
            }
        }
        assert(old(self).compact() && old(self).branches() ==> self.branches()) by {
            if old(self).compact() && old(self).branches() && !self.end {
                if p < old(self).bytes@.len() {
                    let kept = old(self).bytes@[p as int] - 97;
                    assert(self.children@[kept] is Some);
                    assert(self.children@[idx as int] is Some);
                    if kept < idx {
                        assert(self.children@[kept] is Some && self.children@[idx as int] is Some);
                    } else {
                        assert(self.children@[idx as int] is Some && self.children@[kept] is Some);
                    }
                } else {
                    let (i, j) = choose|i: int, j: int|
                        0 <= i < j < old(self).children@.len() && (
                        #[trigger] old(self).children@[i]) is Some && (
                        #[trigger] old(self).children@[j]) is Some;
                    assert(self.children@[i] is Some && self.children@[j] is Some);
                }
            }
        }
        assert forall|w: Seq<u8>| self.accepts(w) <==> mid.accepts(w) || w == bytes@ by {
            let tail = w.skip(p as int);
            if w == bytes@ {
                assert(tail == rest@);
            }
            if mid.bytes@.is_prefix_of(w) && tail.len() > 0 {
                if tail[0] == b {
                    assert(self.child(tail[0]) == Some(filled));
                    assert(mid.child(tail[0]) == before);
                    assert(self.accepts(w) <==> node.accepts(tail));
                    assert(mid.accepts(w) <==> (before is Some && before->0.accepts(tail)));
                    if tail == rest@ {
                        assert(w =~= bytes@) by {
                            assert(w =~= w.take(p as int) + tail);
                            assert(bytes@ =~= bytes@.take(p as int) + rest@);
                            assert(w.take(p as int) =~= mid.bytes@);
                        }
                    }
                } else {
                    assert(self.child(tail[0]) == mid.child(tail[0]));
                }
            }
        }
    }
}

/// The word at place `index` of a word list holds a byte that is no
/// lowercase letter.
#[derive(Debug, Clone, Copy, PartialEq, Eq, Structural)]
pub struct InvalidWord {
    pub index: usize,
}

/// `w` is one of `words`.
pub open spec fn listed(words: Seq<&'static [u8]>, w: Seq<u8>) -> bool {
    exists|i: int| 0 <= i < words.len() && (#[trigger] words[i])@ == w
}

/// Whether `bytes` holds lowercase letters only.
pub fn is_word(bytes: &[u8]) -> (ok: bool)
    ensures
        ok == all_letters(bytes@),
{
    let mut i: usize = 0;
    while i < bytes.len()
        invariant
            i <= bytes@.len(),
            forall|k: int| 0 <= k < i ==> is_letter(#[trigger] bytes@[k]),
        decreases bytes@.len() - i,
    {
        if bytes[i] < 97 || bytes[i] > 122 {
            assert(!is_letter(bytes@[i as int]));
            return false;
        }
        i += 1;
    }
    true
}

/// The trie of a word list: it accepts the words of the list and nothing
/// else, in whatever order they stand. A list with a word that holds
/// anything but lowercase letters gives no trie, and the error names the
/// first such word.
pub fn build_trie(words: &[&'static [u8]]) -> (r: Result<Trie, InvalidWord>)
    ensures
        match r {
            Ok(t) => {
                &&& forall|i: int| 0 <= i < words@.len() ==> all_letters((#[trigger] words@[i])@)
                &&& t.wf()
                &&& t.compact()
                &&& t.bytes@.len() == 0
                &&& forall|w: Seq<u8>| t.accepts(w) <==> listed(words@, w)
            },
            Err(e) => {
                &&& e.index < words@.len()
                &&& !all_letters(words@[e.index as int]@)
                &&& forall|i: int| 0 <= i < e.index ==> all_letters((#[trigger] words@[i])@)
            },
        },
{
    let mut t = Trie::new();
    let mut k: usize = 0;
    while k < words.len()
        invariant
            k <= words@.len(),
            t.wf(),
            t.compact(),
            t.bytes@.len() == 0,
            forall|i: int| 0 <= i < k ==> all_letters((#[trigger] words@[i])@),
            forall|w: Seq<u8>| t.accepts(w) <==> listed(words@.take(k as int), w),
        decreases words@.len() - k,
    {
        let word = words[k];
        if !is_word(word) {
            return Err(InvalidWord { index: k });
        }
        let ghost before = t;
        t.insert(word);
        assert forall|w: Seq<u8>| t.accepts(w) <==> listed(words@.take(k + 1), w) by {
            let shorter = words@.take(k as int);
            let longer = words@.take(k + 1);
            if listed(shorter, w) {
                let i = choose|i: int| 0 <= i < shorter.len() && (#[trigger] shorter[i])@ == w;
                assert(longer[i]@ == w);
            }
            if w == word@ {
                assert(longer[k as int]@ == w);
            }
            if listed(longer, w) {
                let i = choose|i: int| 0 <= i < longer.len() && (#[trigger] longer[i])@ == w;
                if i < k {
                    assert(shorter[i]@ == w);
                }
            }
        }
        k += 1;
    }
    assert(words@.take(k as int) =~= words@);
    Ok(t)
}

} // verus!
