//! The word index: a prefix tree built once from a dictionary word list,
//! supporting insertion and tri-state prefix classification.

use vstd::prelude::*;

verus! {

/// Outcome of classifying a string against the word index: `Absent` means no
/// stored word begins with the string, `Partial` means it is a proper prefix
/// of some stored word, and `Complete` means the string itself is stored.
#[derive(Debug, PartialEq, Eq, Structural)]
pub enum FindWordResult {
    Absent,
    Partial,
    Complete,
}

/// One node of the prefix tree. Every node reachable from the root by a path
/// of characters stands for that prefix; `is_word` marks the node of each
/// complete dictionary word. Each node owns its children; the children of one
/// node carry pairwise distinct characters.
#[derive(Debug)]
pub struct Trie {
    is_word: bool,
    val: Option<char>,
    children: Vec<Trie>,
}

impl Trie {
    /// The character this node was created for (`None` only at the root).
    pub closed spec fn spec_val(self) -> Option<char> {
        self.val
    }

    /// Whether this node ends a stored word.
    pub closed spec fn spec_is_word(self) -> bool {
        self.is_word
    }

    /// Local shape of one node: every child carries a character, and no two
    /// children carry the same one.
    pub closed spec fn node_ok(self) -> bool {
        &&& forall|i: int|
            0 <= i < self.children@.len() ==> (#[trigger] self.children@[i]).val is Some
        &&& forall|i: int, j: int|
            0 <= i < j < self.children@.len() ==> self.children@[i].val != self.children@[j].val
    }

    /// Whether some child of this node carries the character `c`.
    pub closed spec fn has_child(self, c: char) -> bool {
        exists|i: int|
            0 <= i < self.children@.len() && (#[trigger] self.children@[i]).val == Some(c)
    }

    /// The child of this node carrying `c` (meaningful when `has_child(c)`
    /// holds and the node is `node_ok`).
    pub closed spec fn child(self, c: char) -> Trie {
        self.children@[choose|i: int|
            0 <= i < self.children@.len() && (#[trigger] self.children@[i]).val == Some(c)]
    }

    /// The node reached from `self` by following the characters of `p`, if
    /// every step has a matching child edge.
    pub closed spec fn walk(self, p: Seq<char>) -> Option<Trie>
        decreases p.len(),
    {
        if p.len() == 0 {
            Some(self)
        } else if self.has_child(p[0]) {
            self.child(p[0]).walk(p.skip(1))
        } else {
            None
        }
    }

    /// Whether `p` labels a path from this node: `p` is the empty string, a
    /// prefix of a stored word, or a stored word itself.
    pub open spec fn reaches(self, p: Seq<char>) -> bool {
        self.walk(p) is Some
    }

    /// Whether `w` is stored in the tree rooted at this node.
    pub open spec fn contains_word(self, w: Seq<char>) -> bool {
        self.walk(w) matches Some(t) && t.spec_is_word()
    }

    /// Every node reachable from this one is locally well shaped.
    pub closed spec fn wf(self) -> bool {
        forall|p: Seq<char>| (#[trigger] self.walk(p)) matches Some(t) ==> t.node_ok()
    }

    /// The tri-state classification of `p` against the tree rooted here.
    pub open spec fn classify_spec(self, p: Seq<char>) -> FindWordResult {
        if self.contains_word(p) {
            FindWordResult::Complete
        } else if self.reaches(p) {
            FindWordResult::Partial
        } else {
            FindWordResult::Absent
        }
    }

    /// A fresh node for character `c`, holding no children.
    pub fn new(c: char, is_word: bool) -> (t: Trie)
        ensures
            t.wf(),
            t.spec_val() == Some(c),
            forall|w: Seq<char>| t.contains_word(w) <==> (is_word && w.len() == 0),
            forall|p: Seq<char>| t.reaches(p) <==> p.len() == 0,
    {
        let t = Trie { is_word, val: Some(c), children: Vec::new() };
        proof {
            t.lemma_leaf_walk();
        }
        t
    }

    /// A fresh root node, carrying no character and holding no children.
    pub fn new_root() -> (t: Trie)
        ensures
            t.wf(),
            t.spec_val() is None,
            forall|w: Seq<char>| !t.contains_word(w),
            forall|p: Seq<char>| t.reaches(p) <==> p.len() == 0,
    {
        let t = Trie { is_word: false, val: None, children: Vec::new() };
        proof {
            t.lemma_leaf_walk();
        }
        t
    }

    /// Whether this node carries the character `c`.
    pub fn check(self, c: char) -> (r: bool)
        ensures
            r == (self.spec_val() == Some(c)),
    {
        match self.val {
            Some(d) => d == c,
            None => false,
        }
    }

    /// The character this node carries, if any.
    pub fn value(&self) -> (r: Option<char>)
        ensures
            r == self.spec_val(),
    {
        self.val
    }

    /// The unique child index carrying `c` names the same node as `child(c)`.
    proof fn lemma_child_unique(self, c: char, i: int)
        requires
            self.node_ok(),
            0 <= i < self.children@.len(),
            self.children@[i].val == Some(c),
        ensures
            self.has_child(c),
            self.child(c) == self.children@[i],
    {
        let j = choose|j: int|
            0 <= j < self.children@.len() && (#[trigger] self.children@[j]).val == Some(c);
        if i != j {
            assert(self.children@[i].val != self.children@[j].val);
        }
    }

    /// Walking a concatenation is walking the first part, then the second.
    proof fn lemma_walk_append(self, p: Seq<char>, q: Seq<char>)
        ensures
            self.walk(p + q) == match self.walk(p) {
                Some(t) => t.walk(q),
                None => None::<Trie>,
            },
        decreases p.len(),
    {
        if p.len() == 0 {
            assert(p + q =~= q);
        } else {
            assert((p + q)[0] == p[0]);
            assert((p + q).skip(1) =~= p.skip(1) + q);
            if self.has_child(p[0]) {
                self.child(p[0]).lemma_walk_append(p.skip(1), q);
            }
        }
    }

    /// A node reached from a well-formed node is itself well formed.
    proof fn lemma_wf_walk(self, p: Seq<char>, t: Trie)
        requires
            self.wf(),
            self.walk(p) == Some(t),
        ensures
            t.wf(),
    {
        assert forall|q: Seq<char>| ((#[trigger] t.walk(q)) matches Some(u) ==> u.node_ok()) by {
            self.lemma_walk_append(p, q);
            assert(self.walk(p + q) == t.walk(q));
        }
    }

    /// If the walk dies at some prefix, it dies on the whole string.
    proof fn lemma_walk_dead_extension(self, p: Seq<char>, q: Seq<char>)
        requires
            self.walk(p) is None,
            p.is_prefix_of(q),
        ensures
            self.walk(q) is None,
    {
        assert(q =~= p + q.skip(p.len() as int));
        self.lemma_walk_append(p, q.skip(p.len() as int));
    }

    /// The index of the child carrying `c`, if one exists.
    fn child_index(&self, c: char) -> (r: Option<usize>)
        ensures
            match r {
                Some(j) => j < self.children@.len() && self.children@[j as int].spec_val()
                    == Some(c),
                None => !self.has_child(c),
            },
    {
        let mut j: usize = 0;
        while j < self.children.len()
            invariant
                j <= self.children@.len(),
                forall|k: int| 0 <= k < j ==> (#[trigger] self.children@[k]).val != Some(c),
            decreases self.children@.len() - j,
        {
            let hit = match self.children[j].val {
                Some(d) => d == c,
                None => false,
            };
            if hit {
                return Some(j);
            }
            j += 1;
        }
        None
    }

    /// Classify the character sequence `chars` against the tree rooted here,
    /// returning the tri-state outcome and, when the walk succeeds, the node
    /// it lands on.
    pub fn classify(&self, chars: &Vec<char>) -> (r: (FindWordResult, Option<&Trie>))
        requires
            self.wf(),
        ensures
            r.0 == self.classify_spec(chars@),
            match self.walk(chars@) {
                Some(node) => r.1 matches Some(t) && *t == node && node.wf(),
                None => r.1 is None,
            },
    {
        let ghost whole = chars@;
        let mut current: &Trie = self;
        let mut k: usize = 0;
        proof {
            assert(whole.take(0) =~= Seq::<char>::empty());
        }
        while k < chars.len()
            invariant
                self.wf(),
                k <= chars@.len(),
                whole == chars@,
                self.walk(whole.take(k as int)) == Some(*current),
            decreases chars@.len() - k,
        {
            let c = chars[k];
            proof {
                self.lemma_wf_walk(whole.take(k as int), *current);
                assert(whole.take(k as int + 1) =~= whole.take(k as int) + seq![whole[k as int]]);
                self.lemma_walk_append(whole.take(k as int), seq![whole[k as int]]);
                assert(seq![whole[k as int]].skip(1) =~= Seq::<char>::empty());
            }
            match current.child_index(c) {
                Some(j) => {
                    proof {
                        reveal_with_fuel(Trie::walk, 2);
                        current.lemma_child_unique(c, j as int);
                        assert(current.walk(seq![c]) == Some(current.children@[j as int]));
                        assert(self.walk(whole.take(k as int + 1)) == Some(
                            current.children@[j as int],
                        ));
                    }
                    current = &current.children[j];
                }
                None => {
                    proof {
                        assert(self.walk(whole.take(k as int + 1)) is None);
                        self.lemma_walk_dead_extension(whole.take(k as int + 1), whole);
                    }
                    return (FindWordResult::Absent, None);
                }
            }
            k += 1;
        }
        proof {
            assert(whole.take(whole.len() as int) =~= whole);
            self.lemma_wf_walk(whole, *current);
        }
        if current.is_word {
            (FindWordResult::Complete, Some(current))
        } else {
            (FindWordResult::Partial, Some(current))
        }
    }

    /// Classify the string `value`; on a successful walk, also hand back the
    /// node reached, from which the search may continue.
    pub fn find_word(&self, value: &str) -> (r: (FindWordResult, Option<&Trie>))
        requires
            self.wf(),
        ensures
            r.0 == self.classify_spec(value@),
            match self.walk(value@) {
                Some(node) => r.1 matches Some(t) && *t == node && node.wf(),
                None => r.1 is None,
            },
    {
        let chars = chars_of(value);
        self.classify(&chars)
    }

    /// Two nodes with the same children walk alike on nonempty strings.
    proof fn lemma_same_children(t1: Trie, t2: Trie)
        requires
            t1.children@ == t2.children@,
            t1.node_ok(),
        ensures
            t2.node_ok(),
            forall|w: Seq<char>| w.len() >= 1 ==> t1.walk(w) == t2.walk(w),
    {
        assert forall|w: Seq<char>| w.len() >= 1 implies t1.walk(w) == t2.walk(w) by {
            let c = w[0];
            if t1.has_child(c) {
                let i = choose|i: int|
                    0 <= i < t1.children@.len() && (#[trigger] t1.children@[i]).val == Some(c);
                t1.lemma_child_unique(c, i);
                t2.lemma_child_unique(c, i);
            } else if t2.has_child(c) {
                let i = choose|i: int|
                    0 <= i < t2.children@.len() && (#[trigger] t2.children@[i]).val == Some(c);
                assert(t1.children@[i].val == Some(c));
            }
        }
    }

    /// Replacing the child at `j` (which carries `c`) with another node that
    /// carries `c` redirects walks through `c` and leaves all others alone.
    proof fn lemma_update_child(t: Trie, t2: Trie, j: int, c: char, nc: Trie)
        requires
            t.node_ok(),
            0 <= j < t.children@.len(),
            t.children@[j].spec_val() == Some(c),
            nc.spec_val() == Some(c),
            t2.children@ == t.children@.update(j, nc),
        ensures
            t2.node_ok(),
            forall|w: Seq<char>|
                w.len() >= 1 && w[0] == c ==> t.walk(w) == t.children@[j].walk(w.skip(1)),
            forall|w: Seq<char>| w.len() >= 1 && w[0] == c ==> t2.walk(w) == nc.walk(w.skip(1)),
            forall|w: Seq<char>| w.len() >= 1 && w[0] != c ==> t2.walk(w) == t.walk(w),
    {
        assert forall|i: int| 0 <= i < t2.children@.len() implies (#[trigger] t2.children@[i]).val
            == t.children@[i].val by {}
        assert(t2.node_ok());
        assert forall|w: Seq<char>| w.len() >= 1 && w[0] == c implies t.walk(w)
            == t.children@[j].walk(w.skip(1)) && t2.walk(w) == nc.walk(w.skip(1)) by {
            t.lemma_child_unique(c, j);
            t2.lemma_child_unique(c, j);
        }
        assert forall|w: Seq<char>| w.len() >= 1 && w[0] != c implies t2.walk(w) == t.walk(w) by {
            let d = w[0];
            if t.has_child(d) {
                let i = choose|i: int|
                    0 <= i < t.children@.len() && (#[trigger] t.children@[i]).val == Some(d);
                assert(i != j);
                t.lemma_child_unique(d, i);
                t2.lemma_child_unique(d, i);
            } else if t2.has_child(d) {
                let i = choose|i: int|
                    0 <= i < t2.children@.len() && (#[trigger] t2.children@[i]).val == Some(d);
                assert(t.children@[i].val == Some(d));
            }
        }
    }

    /// Appending a child carrying a fresh character `c` opens exactly the
    /// walks through `c` and leaves all others alone.
    proof fn lemma_push_child(t: Trie, t2: Trie, nc: Trie, c: char)
        requires
            t.node_ok(),
            !t.has_child(c),
            nc.spec_val() == Some(c),
            t2.children@ == t.children@.push(nc),
        ensures
            t2.node_ok(),
            forall|w: Seq<char>| w.len() >= 1 && w[0] == c ==> t2.walk(w) == nc.walk(w.skip(1)),
            forall|w: Seq<char>| w.len() >= 1 && w[0] != c ==> t2.walk(w) == t.walk(w),
    {
        let n = t.children@.len() as int;
        assert forall|i: int| 0 <= i < n implies (#[trigger] t2.children@[i]).val
            == t.children@[i].val by {}
        assert(t2.children@[n] == nc);
        assert forall|i: int, j2: int| 0 <= i < j2 < t2.children@.len() implies t2.children@[i].val
            != t2.children@[j2].val by {
            if j2 == n {
                assert(t.children@[i].val != Some(c));
            }
        }
        assert forall|w: Seq<char>| w.len() >= 1 && w[0] == c implies t2.walk(w) == nc.walk(
            w.skip(1),
        ) by {
            t2.lemma_child_unique(c, n);
        }
        assert forall|w: Seq<char>| w.len() >= 1 && w[0] != c implies t2.walk(w) == t.walk(w) by {
            let d = w[0];
            if t.has_child(d) {
                let i = choose|i: int|
                    0 <= i < t.children@.len() && (#[trigger] t.children@[i]).val == Some(d);
                t.lemma_child_unique(d, i);
                t2.lemma_child_unique(d, i);
            } else if t2.has_child(d) {
                let i = choose|i: int|
                    0 <= i < t2.children@.len() && (#[trigger] t2.children@[i]).val == Some(d);
                if i < n {
                    assert(t.children@[i].val == Some(d));
                }
            }
        }
    }

    /// Insert the suffix of `chars` starting at `i` below this node: walk or
    /// create a child chain, one node per character, and mark the final node
    /// as a word. Exactly the suffix becomes a stored word, and exactly its
    /// prefixes become reachable, on top of what was there before.
    fn insert_rec(&mut self, chars: &Vec<char>, i: usize)
        requires
            old(self).wf(),
            i <= chars@.len(),
        ensures
            final(self).wf(),
            final(self).spec_val() == old(self).spec_val(),
            forall|w: Seq<char>|
                final(self).contains_word(w) <==> (old(self).contains_word(w) || w == chars@.skip(
                    i as int,
                )),
            forall|p: Seq<char>|
                final(self).reaches(p) <==> (old(self).reaches(p) || p.is_prefix_of(
                    chars@.skip(i as int),
                )),
        decreases chars@.len() - i,
    {
        let ghost orig = *self;
        let ghost suffix = chars@.skip(i as int);
        proof {
            assert(orig.walk(Seq::<char>::empty()) == Some(orig));
            assert(orig.node_ok());
        }
        if i == chars.len() {
            self.is_word = true;
            proof {
                let t2 = *self;
                assert(suffix =~= Seq::<char>::empty());
                Self::lemma_same_children(orig, t2);
                assert(t2.walk(Seq::<char>::empty()) == Some(t2));
                assert forall|p: Seq<char>| ((#[trigger] t2.walk(p)) matches Some(u)
                    ==> u.node_ok()) by {
                    if p.len() >= 1 {
                        assert(t2.walk(p) == orig.walk(p));
                    }
                }
                assert forall|w: Seq<char>|
                    t2.contains_word(w) <==> (orig.contains_word(w) || w == suffix) by {
                    if w.len() == 0 {
                        assert(w =~= suffix);
                    } else {
                        assert(t2.walk(w) == orig.walk(w));
                    }
                }
                assert forall|p: Seq<char>|
                    t2.reaches(p) <==> (orig.reaches(p) || p.is_prefix_of(suffix)) by {
                    if p.len() >= 1 {
                        assert(t2.walk(p) == orig.walk(p));
                    }
                }
            }
            return ;
        }
        let c = chars[i];
        let j: usize = match self.child_index(c) {
            Some(jj) => jj,
            None => {
                let node = Trie::new(c, false);
                self.children.push(node);
                proof {
                    Self::lemma_push_child(orig, *self, node, c);
                }
                self.children.len() - 1
            },
        };
        let ghost mid = *self;
        let ghost child_old = self.children@[j as int];
        proof {
            // Facts shared by both branches above: the walk through `c` goes
            // to the child at `j`, other walks are as in `orig`, and nothing
            // stored has changed.
            assert(mid.children@[j as int].spec_val() == Some(c));
            if mid.children@ == orig.children@ {
                Self::lemma_same_children(orig, mid);
            }
            assert(mid.node_ok());
            assert forall|w: Seq<char>| w.len() >= 1 && w[0] == c implies #[trigger] mid.walk(w)
                == child_old.walk(w.skip(1)) by {
                mid.lemma_child_unique(c, j as int);
            }
            assert forall|w: Seq<char>| w.len() >= 1 && w[0] != c implies #[trigger] mid.walk(w)
                == orig.walk(w) by {}
            assert(mid.is_word == orig.is_word);
            assert(mid.walk(Seq::<char>::empty()) == Some(mid));
            // The child at `j` is well formed: in the existing-child case it
            // is reached from `orig`, in the push case it is a fresh leaf.
            if mid.children@ == orig.children@ {
                assert(orig.walk(seq![c]) == child_old.walk(seq![c].skip(1)));
                assert(seq![c].skip(1) =~= Seq::<char>::empty());
                assert(child_old.walk(Seq::<char>::empty()) == Some(child_old));
                orig.lemma_wf_walk(seq![c], child_old);
            }
            assert(child_old.wf());
        }
        let child = &mut self.children[j];
        child.insert_rec(chars, i + 1);
        proof {
            let t2 = *self;
            let cn = t2.children@[j as int];
            let ghost sub = chars@.skip(i as int + 1);
            assert(suffix =~= seq![c] + sub);
            assert(suffix[0] == c && suffix.skip(1) =~= sub);
            Self::lemma_update_child(mid, t2, j as int, c, cn);
            assert(t2.walk(Seq::<char>::empty()) == Some(t2));
            assert(t2.is_word == orig.is_word);
            // Well-formedness of the result.
            assert forall|p: Seq<char>| ((#[trigger] t2.walk(p)) matches Some(u)
                ==> u.node_ok()) by {
                if p.len() >= 1 {
                    if p[0] == c {
                        assert(t2.walk(p) == cn.walk(p.skip(1)));
                    } else {
                        assert(t2.walk(p) == mid.walk(p));
                        assert(mid.walk(p) == orig.walk(p));
                    }
                }
            }
            // Stored words: exactly the suffix is new.
            assert forall|w: Seq<char>|
                t2.contains_word(w) <==> (orig.contains_word(w) || w == suffix) by {
                if w.len() == 0 {
                    assert(w != suffix);
                } else if w[0] == c {
                    assert(t2.walk(w) == cn.walk(w.skip(1)));
                    assert(mid.walk(w) == child_old.walk(w.skip(1)));
                    assert(cn.contains_word(w.skip(1)) <==> (child_old.contains_word(w.skip(1))
                        || w.skip(1) == sub));
                    if w.skip(1) == sub {
                        assert(w =~= suffix);
                    }
                    if w == suffix {
                        assert(w.skip(1) =~= sub);
                    }
                } else {
                    assert(t2.walk(w) == mid.walk(w));
                    assert(mid.walk(w) == orig.walk(w));
                    assert(w != suffix);
                }
            }
            // Reachable prefixes: exactly the prefixes of the suffix are new.
            assert forall|p: Seq<char>|
                t2.reaches(p) <==> (orig.reaches(p) || p.is_prefix_of(suffix)) by {
                if p.len() == 0 {
                    assert(p.is_prefix_of(suffix));
                } else if p[0] == c {
                    assert(t2.walk(p) == cn.walk(p.skip(1)));
                    assert(mid.walk(p) == child_old.walk(p.skip(1)));
                    assert(cn.reaches(p.skip(1)) <==> (child_old.reaches(p.skip(1)) || p.skip(
                        1,
                    ).is_prefix_of(sub)));
                    if p.skip(1).is_prefix_of(sub) {
                        assert(p =~= seq![c] + p.skip(1));
                        assert(p.is_prefix_of(suffix)) by {
                            assert(p.len() <= suffix.len());
                            assert(p =~= suffix.subrange(0, p.len() as int));
                        }
                    }
                    if p.is_prefix_of(suffix) {
                        assert(p =~= suffix.subrange(0, p.len() as int));
                        assert(p.skip(1) =~= sub.subrange(0, p.len() - 1));
                        assert(p.skip(1).is_prefix_of(sub));
                    }
                    if child_old.reaches(p.skip(1)) {
                        assert(mid.reaches(p));
                    }
                    if mid.reaches(p) {
                        if mid.children@ == orig.children@ {
                            assert(orig.walk(p) == mid.walk(p));
                            assert(orig.reaches(p));
                        } else {
                            // In the push case a walk through `c` inside `mid`
                            // exists only for the single character `c` itself.
                            assert(mid.walk(p) == child_old.walk(p.skip(1)));
                            if p.skip(1).len() == 0 {
                                assert(p.skip(1) =~= Seq::<char>::empty());
                                assert(p =~= seq![c]);
                                assert(p.is_prefix_of(suffix)) by {
                                    assert(p =~= suffix.subrange(0, 1));
                                }
                            } else {
                                assert(!child_old.reaches(p.skip(1)));
                            }
                        }
                    }
                    if orig.reaches(p) {
                        if mid.children@ == orig.children@ {
                            assert(mid.reaches(p));
                        }
                    }
                } else {
                    assert(t2.walk(p) == mid.walk(p));
                    assert(mid.walk(p) == orig.walk(p));
                    assert(!p.is_prefix_of(suffix)) by {
                        if p.is_prefix_of(suffix) {
                            assert(p =~= suffix.subrange(0, p.len() as int));
                            assert(p[0] == suffix[0]);
                        }
                    }
                }
            }
        }
    }

    /// Insert one word: afterwards exactly that word is stored, and exactly
    /// its prefixes are reachable, on top of what was there before.
    fn insert_word(&mut self, word: &str)
        requires
            old(self).wf(),
        ensures
            final(self).wf(),
            final(self).spec_val() == old(self).spec_val(),
            forall|w: Seq<char>|
                final(self).contains_word(w) <==> (old(self).contains_word(w) || w == word@),
            forall|p: Seq<char>|
                final(self).reaches(p) <==> (old(self).reaches(p) || p.is_prefix_of(word@)),
    {
        let chars = chars_of(word);
        proof {
            assert(chars@.skip(0) =~= word@);
        }
        self.insert_rec(&chars, 0);
    }

    /// Build the word index for a dictionary: the resulting tree stores
    /// exactly the words of the list, and reaches exactly the empty string
    /// and the nonempty prefixes of those words.
    #[verifier::rlimit(100)]
    pub fn from_dict(dictionary: Vec<String>) -> (root: Trie)
        ensures
            root.wf(),
            root.spec_val() is None,
            forall|w: Seq<char>|
                root.contains_word(w) <==> exists|k: int|
                    0 <= k < dictionary@.len() && #[trigger] dictionary@[k]@ == w,
            forall|p: Seq<char>|
                root.reaches(p) <==> (p.len() == 0 || exists|k: int|
                    0 <= k < dictionary@.len() && p.is_prefix_of(#[trigger] dictionary@[k]@)),
    {
        let mut root = Trie::new_root();
        let mut i: usize = 0;
        while i < dictionary.len()
            invariant
                root.wf(),
                root.spec_val() is None,
                i <= dictionary@.len(),
                forall|w: Seq<char>|
                    root.contains_word(w) <==> exists|k: int|
                        0 <= k < i && #[trigger] dictionary@[k]@ == w,
                forall|p: Seq<char>|
                    root.reaches(p) <==> (p.len() == 0 || exists|k: int|
                        0 <= k < i && p.is_prefix_of(#[trigger] dictionary@[k]@)),
            decreases dictionary@.len() - i,
        {
            let ghost prev = root;
            root.insert_word(dictionary[i].as_str());
            proof {
                assert forall|w: Seq<char>|
                    root.contains_word(w) <==> exists|k: int|
                        0 <= k < i + 1 && #[trigger] dictionary@[k]@ == w by {
                    if root.contains_word(w) {
                        if prev.contains_word(w) {
                            let k = choose|k: int|
                                0 <= k < i && #[trigger] dictionary@[k]@ == w;
                            assert(0 <= k < i + 1 && dictionary@[k]@ == w);
                        } else {
                            assert(dictionary@[i as int]@ == w);
                        }
                    }
                }
                assert forall|p: Seq<char>|
                    root.reaches(p) <==> (p.len() == 0 || exists|k: int|
                        0 <= k < i + 1 && p.is_prefix_of(#[trigger] dictionary@[k]@)) by {
                    if root.reaches(p) && p.len() != 0 {
                        if prev.reaches(p) {
                            let k = choose|k: int|
                                0 <= k < i && p.is_prefix_of(#[trigger] dictionary@[k]@);
                            assert(0 <= k < i + 1 && p.is_prefix_of(dictionary@[k]@));
                        } else {
                            assert(p.is_prefix_of(dictionary@[i as int]@));
                        }
                    }
                }
            }
            i += 1;
        }
        root
    }

    /// Round trip: every word stored in the index (as every word handed to
    /// `from_dict` is) classifies as `Complete`.
    pub proof fn lemma_stored_word_classifies_complete(self, w: Seq<char>)
        requires
            self.contains_word(w),
        ensures
            self.classify_spec(w) == FindWordResult::Complete,
    {
    }

    /// Prefix monotonicity: every nonempty prefix of a stored word classifies
    /// as `Complete` or `Partial`, never as `Absent`.
    pub proof fn lemma_prefix_never_absent(self, w: Seq<char>, p: Seq<char>)
        requires
            self.contains_word(w),
            p.is_prefix_of(w),
            p.len() >= 1,
        ensures
            self.classify_spec(p) != FindWordResult::Absent,
    {
        if self.walk(p) is None {
            self.lemma_walk_dead_extension(p, w);
        }
    }

    proof fn lemma_leaf_walk(self)
        requires
            self.children@.len() == 0,
        ensures
            forall|p: Seq<char>| self.walk(p) == if p.len() == 0 {
                Some(self)
            } else {
                Option::<Trie>::None
            },
            self.wf(),
    {
        assert forall|p: Seq<char>|
            self.walk(p) == if p.len() == 0 {
                Some(self)
            } else {
                Option::<Trie>::None
            } by {
            if p.len() != 0 {
                assert(!self.has_child(p[0]));
            }
        }
    }
}

/// The characters of a string slice, in order.
pub fn chars_of(s: &str) -> (r: Vec<char>)
    ensures
        r@ == s@,
{
    let n = s.unicode_len();
    let mut r: Vec<char> = Vec::new();
    let mut i: usize = 0;
    while i < n
        invariant
            i <= n,
            n == s@.len(),
            r@ == s@.take(i as int),
        decreases n - i,
    {
        r.push(s.get_char(i));
        proof {
            assert(s@.take(i as int + 1) =~= s@.take(i as int).push(s@[i as int]));
        }
        i += 1;
    }
    proof {
        assert(s@.take(n as int) =~= s@);
    }
    r
}

} // verus!
