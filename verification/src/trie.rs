//! A trie over the lowercase letters `'a'..='z'`.
//!
//! The abstraction is a pair of predicates on character sequences:
//! [`Trie::contains_word`] — the word was inserted — and
//! [`Trie::contains_prefix`] — some inserted word starts with it.  `insert`
//! adds exactly one word; `search` and `starts_with` decide the two
//! predicates.

use vstd::prelude::*;

verus! {

/// The number of children per node: one per letter.
pub const SIZE: usize = 26;

/// The code point of `'a'`, the first letter the trie accepts.
pub const ASCII_OFFSET: usize = 97;

/// A character the trie accepts: a lowercase ASCII letter.
pub open spec fn lowercase(c: char) -> bool {
    'a' <= c && c <= 'z'
}

/// Every character of the sequence is a lowercase ASCII letter.
pub open spec fn all_lowercase(w: Seq<char>) -> bool {
    forall|i: int| 0 <= i < w.len() ==> lowercase(#[trigger] w[i])
}

/// The child slot a character selects.
pub open spec fn spec_index(c: char) -> int {
    c as int - ASCII_OFFSET as int
}

/// The child slot of a lowercase letter, as the executable code computes it.
pub fn to_index(ch: char) -> (i: usize)
    requires
        lowercase(ch),
    ensures
        i == spec_index(ch),
        i < SIZE,
{
    (ch as usize) - ASCII_OFFSET
}

/// A trie node: 26 optional children and a flag marking the end of an
/// inserted word.
pub struct Trie {
    links: Vec<Option<Box<Trie>>>,
    is_end: bool,
}

impl Trie {
    /// The structural invariant: every node has exactly 26 child slots.
    pub closed spec fn wf(self) -> bool
        decreases self,
    {
        &&& self.links@.len() == SIZE
        &&& forall|i: int|
            0 <= i < SIZE && self.links@[i] is Some ==> (#[trigger] self.links@[i])->0.wf()
    }

    /// Whether `w`, read from this node, ends on a node marked as a word end.
    pub closed spec fn contains_word(self, w: Seq<char>) -> bool
        decreases w.len(),
    {
        if w.len() == 0 {
            self.is_end
        } else {
            let i = spec_index(w[0]);
            &&& 0 <= i < SIZE
            &&& self.links@[i] is Some
            &&& self.links@[i]->0.contains_word(w.drop_first())
        }
    }

    /// Whether `w`, read from this node, reaches any node at all.
    pub closed spec fn contains_prefix(self, w: Seq<char>) -> bool
        decreases w.len(),
    {
        if w.len() == 0 {
            true
        } else {
            let i = spec_index(w[0]);
            &&& 0 <= i < SIZE
            &&& self.links@[i] is Some
            &&& self.links@[i]->0.contains_prefix(w.drop_first())
        }
    }

    /// An empty trie: no children, no word ends — so it contains no word,
    /// and no prefix but the empty one.
    pub fn new() -> (t: Trie)
        ensures
            t.wf(),
            forall|w: Seq<char>| !t.contains_word(w),
            forall|w: Seq<char>| t.contains_prefix(w) <==> w.len() == 0,
    {
        let mut links: Vec<Option<Box<Trie>>> = Vec::new();
        let mut i: usize = 0;
        while i < SIZE
            invariant
                i <= SIZE,
                links@.len() == i,
                forall|j: int| 0 <= j < i ==> links@[j] is None,
            decreases SIZE - i,
        {
            links.push(None);
            i = i + 1;
        }
        let t = Trie { links, is_end: false };
        proof {
            assert forall|w: Seq<char>| !t.contains_word(w) by {
                if w.len() != 0 && 0 <= spec_index(w[0]) < SIZE {
                    assert(t.links@[spec_index(w[0])] is None);
                }
            }
            assert forall|w: Seq<char>| w.len() != 0 implies !t.contains_prefix(w) by {
                if 0 <= spec_index(w[0]) < SIZE {
                    assert(t.links@[spec_index(w[0])] is None);
                }
            }
        }
        t
    }

    /// Inserts the suffix of `word` that starts at `from`, walking and
    /// creating child nodes as needed.
    fn insert_suffix(&mut self, word: &Vec<char>, from: usize)
        requires
            old(self).wf(),
            from <= word@.len(),
            all_lowercase(word@),
        ensures
            final(self).wf(),
            forall|w: Seq<char>|
                final(self).contains_word(w) <==> (old(self).contains_word(w) || w
                    =~= word@.skip(from as int)),
            forall|w: Seq<char>|
                final(self).contains_prefix(w) <==> (old(self).contains_prefix(w)
                    || exists|j: int|
                    from <= j <= word@.len() && w =~= #[trigger] word@.subrange(
                        from as int,
                        j,
                    )),
        decreases word@.len() - from,
    {
        if from == word.len() {
            self.is_end = true;
            proof {
                let tail = word@.skip(from as int);
                assert(tail.len() == 0);
                assert(self.contains_word(tail));
                assert forall|w: Seq<char>|
                    self.contains_word(w) <==> (old(self).contains_word(w) || w =~= tail) by {
                    lemma_only_end_changed(*old(self), *self, w);
                }
                assert forall|w: Seq<char>|
                    self.contains_prefix(w) <==> (old(self).contains_prefix(w)
                        || exists|j: int|
                        from <= j <= word@.len() && w =~= #[trigger] word@.subrange(
                            from as int,
                            j,
                        )) by {
                    lemma_end_changed_prefix(*old(self), *self, w);
                    if w =~= word@.subrange(from as int, from as int) {
                        assert(w.len() == 0);
                    }
                }
            }
        } else {
            let c = word[from];
            let idx = to_index(c);
            let mut child = self.links.remove(idx);
            let mut boxed: Box<Trie> = match child {
                None => Box::new(Trie::new()),
                Some(b) => b,
            };
            let ghost child_pre = *boxed;
            boxed.insert_suffix(word, from + 1);
            self.links.insert(idx, Some(boxed));
            proof {
                assert(self.links@ =~= old(self).links@.update(idx as int, self.links@[idx as int]));
                lemma_insert_step(*old(self), *self, child_pre, word@, from as int, idx as int);
            }
        }
    }

    /// Inserts `word`, which must consist of lowercase letters.  Afterwards
    /// the trie contains exactly the words it contained before plus `word`,
    /// and the prefixes it contained before plus every prefix of `word`.
    pub fn insert(&mut self, word: String)
        requires
            old(self).wf(),
            all_lowercase(word@),
        ensures
            final(self).wf(),
            forall|w: Seq<char>|
                final(self).contains_word(w) <==> (old(self).contains_word(w) || w =~= word@),
            forall|w: Seq<char>|
                final(self).contains_prefix(w) <==> (old(self).contains_prefix(w)
                    || exists|j: int| 0 <= j <= word@.len() && w =~= #[trigger] word@.subrange(0, j)),
    {
        let chars = chars_of(&word);
        self.insert_suffix(&chars, 0);
        proof {
            assert(word@.skip(0) =~= word@);
        }
    }

    /// Walks `word` from this node; true iff every step finds a child.
    fn walk_suffix(&self, word: &Vec<char>, from: usize, need_end: bool) -> (r: bool)
        requires
            self.wf(),
            from <= word@.len(),
            all_lowercase(word@),
        ensures
            need_end ==> r == self.contains_word(word@.skip(from as int)),
            !need_end ==> r == self.contains_prefix(word@.skip(from as int)),
        decreases word@.len() - from,
    {
        proof {
            assert(word@.skip(from as int).len() == word@.len() - from);
        }
        if from == word.len() {
            if need_end {
                self.is_end
            } else {
                true
            }
        } else {
            let c = word[from];
            let idx = to_index(c);
            proof {
                assert(word@.skip(from as int)[0] == word@[from as int]);
                assert(word@.skip(from as int).drop_first() =~= word@.skip(from as int + 1));
            }
            match &self.links[idx] {
                None => false,
                Some(child) => child.walk_suffix(word, from + 1, need_end),
            }
        }
    }

    /// Whether `word` was inserted.  `word` must consist of lowercase
    /// letters.
    pub fn search(&self, word: String) -> (r: bool)
        requires
            self.wf(),
            all_lowercase(word@),
        ensures
            r == self.contains_word(word@),
    {
        let chars = chars_of(&word);
        let r = self.walk_suffix(&chars, 0, true);
        proof {
            assert(word@.skip(0) =~= word@);
        }
        r
    }

    /// Whether some inserted word starts with `prefix`.  `prefix` must
    /// consist of lowercase letters.  (On a freshly built trie the empty
    /// prefix is reported present, as the walk reaches the root; no word is
    /// reported present.)
    pub fn starts_with(&self, prefix: String) -> (r: bool)
        requires
            self.wf(),
            all_lowercase(prefix@),
    ensures
            r == self.contains_prefix(prefix@),
    {
        let chars = chars_of(&prefix);
        let r = self.walk_suffix(&chars, 0, false);
        proof {
            assert(prefix@.skip(0) =~= prefix@);
        }
        r
    }
}

/// The characters of a string, as a vector.
fn chars_of(s: &String) -> (v: Vec<char>)
    ensures
        v@ == s@,
{
    let n = s.as_str().unicode_len();
    let mut v: Vec<char> = Vec::new();
    let mut i: usize = 0;
    while i < n
        invariant
            i <= n,
            n == s@.len(),
            v@.len() == i,
            forall|j: int| 0 <= j < i ==> v@[j] == s@[j],
        decreases n - i,
    {
        v.push(s.as_str().get_char(i));
        i = i + 1;
    }
    proof {
        assert(v@ =~= s@);
    }
    v
}

/// Marking a node as a word end adds exactly the empty word at that node.
proof fn lemma_only_end_changed(pre: Trie, post: Trie, w: Seq<char>)
    requires
        post.links == pre.links,
        post.is_end,
    ensures
        post.contains_word(w) <==> (pre.contains_word(w) || w.len() == 0),
    decreases w.len(),
{
    if w.len() != 0 {
        let i = spec_index(w[0]);
        if 0 <= i < SIZE && pre.links@[i] is Some {
            assert(post.contains_word(w) == pre.contains_word(w));
        }
    }
}

/// Marking a node as a word end changes no prefix.
proof fn lemma_end_changed_prefix(pre: Trie, post: Trie, w: Seq<char>)
    requires
        post.links == pre.links,
    ensures
        post.contains_prefix(w) == pre.contains_prefix(w),
{
}

/// The inductive step of `insert`: replacing the child at slot `idx` by one
/// that gained exactly the suffix starting at `from + 1` gives a node that
/// gained exactly the suffix starting at `from`.
proof fn lemma_insert_step(
    pre: Trie,
    post: Trie,
    child_pre: Trie,
    word: Seq<char>,
    from: int,
    idx: int,
)
    requires
        pre.wf(),
        child_pre.wf(),
        0 <= from < word.len(),
        all_lowercase(word),
        idx == spec_index(word[from]),
        0 <= idx < SIZE,
        post.is_end == pre.is_end,
        post.links@.len() == SIZE,
        post.links@ == pre.links@.update(idx, post.links@[idx]),
        post.links@[idx] is Some,
        post.links@[idx]->0.wf(),
        // what the recursive call did to the child
        (pre.links@[idx] is Some ==> child_pre == pre.links@[idx]->0),
        (pre.links@[idx] is None ==> (forall|w: Seq<char>| !child_pre.contains_word(w)) && (
        forall|w: Seq<char>| child_pre.contains_prefix(w) <==> w.len() == 0)),
        forall|w: Seq<char>|
            (#[trigger] post.links@[idx]->0.contains_word(w)) <==> (child_pre.contains_word(w) || w
                =~= word.skip(from + 1)),
        forall|w: Seq<char>|
            post.links@[idx]->0.contains_prefix(w) <==> (child_pre.contains_prefix(w) || exists|
                j: int,
            |
                from + 1 <= j <= word.len() && w =~= #[trigger] word.subrange(from + 1, j)),
    ensures
        post.wf(),
        forall|w: Seq<char>|
            post.contains_word(w) <==> (pre.contains_word(w) || w =~= word.skip(from)),
        forall|w: Seq<char>|
            post.contains_prefix(w) <==> (pre.contains_prefix(w) || exists|j: int|
                from <= j <= word.len() && w =~= #[trigger] word.subrange(from, j)),
{
    assert(post.wf());
    let suffix = word.skip(from);
    assert(suffix.len() == word.len() - from);
    assert(spec_index(suffix[0]) == idx);
    assert(suffix.drop_first() =~= word.skip(from + 1));

    assert forall|w: Seq<char>|
        post.contains_word(w) <==> (pre.contains_word(w) || w =~= word.skip(from)) by {
        if w.len() == 0 {
            assert(!(w =~= suffix));
            assert(post.contains_word(w) == pre.contains_word(w));
        } else {
            let i = spec_index(w[0]);
            if !(0 <= i < SIZE) {
                assert(!(w =~= suffix));
            } else if i != idx {
                assert(post.links@[i] == pre.links@[i]);
                assert(post.contains_word(w) == pre.contains_word(w));
                assert(!(w =~= suffix));
            } else {
                let tail2 = w.drop_first();
                assert(w[0] == word[from]);
                assert(post.contains_word(w) <==> post.links@[idx]->0.contains_word(tail2));
                assert(post.links@[idx]->0.contains_word(tail2) <==> (child_pre.contains_word(
                    tail2,
                ) || tail2 =~= word.skip(from + 1)));
                if pre.links@[idx] is None {
                    assert(!child_pre.contains_word(tail2));
                    assert(!pre.contains_word(w));
                } else {
                    assert(pre.contains_word(w) <==> child_pre.contains_word(tail2));
                }
                assert(suffix.drop_first() =~= word.skip(from + 1));
                if tail2 =~= word.skip(from + 1) {
                    assert(w.len() == suffix.len());
                    assert forall|t: int| 0 <= t < w.len() implies w[t] == suffix[t] by {
                        if t > 0 {
                            assert(w[t] == tail2[t - 1]);
                            assert(suffix[t] == word[from + t]);
                        }
                    }
                    assert(w =~= suffix);
                }
                if w =~= suffix {
                    assert(tail2 =~= suffix.drop_first());
                }
            }
        }
    }

    assert forall|w: Seq<char>|
        post.contains_prefix(w) <==> (pre.contains_prefix(w) || exists|j: int|
            from <= j <= word.len() && w =~= #[trigger] word.subrange(from, j)) by {
        if w.len() == 0 {
            assert(w =~= word.subrange(from, from));
            assert(post.contains_prefix(w));
            assert(pre.contains_prefix(w));
        } else {
            let i = spec_index(w[0]);
            if 0 <= i < SIZE {
                if i != idx {
                    assert(post.links@[i] == pre.links@[i]);
                    assert(post.contains_prefix(w) == pre.contains_prefix(w));
                    if exists|j: int|
                        from <= j <= word.len() && w =~= #[trigger] word.subrange(from, j) {
                        let j = choose|j: int|
                            from <= j <= word.len() && w =~= #[trigger] word.subrange(from, j);
                        assert(w[0] == word[from]);
                        assert(false);
                    }
                } else {
                    lemma_prefix_shift(pre, post, child_pre, word, from, idx, w);
                }
            } else {
                if exists|j: int|
                    from <= j <= word.len() && w =~= #[trigger] word.subrange(from, j) {
                    let j = choose|j: int|
                        from <= j <= word.len() && w =~= #[trigger] word.subrange(from, j);
                    assert(w[0] == word[from]);
                    assert(false);
                }
            }
        }
    }
}

/// The prefix case of [`lemma_insert_step`] for the slot the word goes
/// through.
proof fn lemma_prefix_shift(
    pre: Trie,
    post: Trie,
    child_pre: Trie,
    word: Seq<char>,
    from: int,
    idx: int,
    w: Seq<char>,
)
    requires
        pre.wf(),
        0 <= from < word.len(),
        idx == spec_index(word[from]),
        0 <= idx < SIZE,
        post.links@.len() == SIZE,
        post.links@ == pre.links@.update(idx, post.links@[idx]),
        post.links@[idx] is Some,
        (pre.links@[idx] is Some ==> child_pre == pre.links@[idx]->0),
        (pre.links@[idx] is None ==> (forall|v: Seq<char>| child_pre.contains_prefix(v) <==> v.len()
            == 0)),
        forall|v: Seq<char>|
            post.links@[idx]->0.contains_prefix(v) <==> (child_pre.contains_prefix(v) || exists|
                j: int,
            |
                from + 1 <= j <= word.len() && v =~= #[trigger] word.subrange(from + 1, j)),
        w.len() > 0,
        spec_index(w[0]) == idx,
    ensures
        post.contains_prefix(w) <==> (pre.contains_prefix(w) || exists|j: int|
            from <= j <= word.len() && w =~= #[trigger] word.subrange(from, j)),
{
    let tail = w.drop_first();
    assert(post.contains_prefix(w) <==> post.links@[idx]->0.contains_prefix(tail));

    if post.contains_prefix(w) {
        if child_pre.contains_prefix(tail) {
            if pre.links@[idx] is Some {
                assert(pre.contains_prefix(w));
            } else {
                assert(tail.len() == 0);
                assert(w.len() == 1);
                assert(w[0] == word[from]);
                assert(w =~= word.subrange(from, from + 1));
            }
        } else {
            let j = choose|j: int|
                from + 1 <= j <= word.len() && tail =~= #[trigger] word.subrange(from + 1, j);
            assert(w =~= word.subrange(from, j)) by {
                assert(w[0] == word[from]);
                assert(word.subrange(from, j)[0] == word[from]);
                assert(word.subrange(from, j).drop_first() =~= word.subrange(from + 1, j));
                assert(w =~= seq![w[0]] + tail);
                assert(word.subrange(from, j) =~= seq![word[from]] + word.subrange(from + 1, j));
            }
        }
    }
    if pre.contains_prefix(w) {
        assert(pre.links@[idx] is Some);
        assert(child_pre.contains_prefix(tail));
        assert(post.contains_prefix(w));
    }
    if exists|j: int| from <= j <= word.len() && w =~= #[trigger] word.subrange(from, j) {
        let j = choose|j: int| from <= j <= word.len() && w =~= #[trigger] word.subrange(from, j);
        assert(j > from) by {
            if j == from {
                assert(w.len() == 0);
            }
        }
        assert(tail =~= word.subrange(from + 1, j)) by {
            assert(w =~= word.subrange(from, j));
            assert(word.subrange(from, j).drop_first() =~= word.subrange(from + 1, j));
        }
        assert(post.links@[idx]->0.contains_prefix(tail));
        assert(post.contains_prefix(w));
    }
}

} // verus!
