use vstd::prelude::*;

verus! {

/// A node within a trie.
///
/// Each node owns a mapping from symbol to child node, kept as a vector of
/// pairs with pairwise-distinct keys, and a flag that marks whether the
/// sequence of symbols on the path from the root to this node is a stored
/// member of the trie.
pub struct TrieNode {
    /// Child nodes, keyed by the symbol on the edge leading to them.
    /// Keys are unique within a node; their order carries no meaning.
    pub children: Vec<(char, TrieNode)>,
    /// True iff the path from the root to this node is a stored sequence.
    pub end_of_value: bool,
}

impl TrieNode {
    /// The keys of the direct children are pairwise distinct.
    pub open spec fn keys_unique(self) -> bool {
        forall|i: int, j: int|
            0 <= i < j < self.children@.len()
                ==> self.children@[i].0 != self.children@[j].0
    }

    /// Well-formedness: unique child keys, at every node of the subtree.
    pub open spec fn wf(self) -> bool
        decreases self,
    {
        self.keys_unique() && (forall|i: int|
            0 <= i < self.children@.len() ==> (#[trigger] self.children@[i].1).wf())
    }

    /// True iff some direct child is keyed by `c`.
    pub open spec fn has_key(self, c: char) -> bool {
        exists|i: int| 0 <= i < self.children@.len() && self.children@[i].0 == c
    }

    /// The index of the direct child keyed by `c`.
    pub open spec fn key_index(self, c: char) -> int {
        choose|i: int| 0 <= i < self.children@.len() && self.children@[i].0 == c
    }

    /// The direct child keyed by `c`.
    pub open spec fn child(self, c: char) -> TrieNode {
        self.children@[self.key_index(c)].1
    }

    /// Membership: the sequence `s` is stored in the subtree rooted here.
    pub open spec fn spec_contains(self, s: Seq<char>) -> bool
        decreases s.len(),
    {
        if s.len() == 0 {
            self.end_of_value
        } else {
            self.has_key(s[0]) && self.child(s[0]).spec_contains(s.drop_first())
        }
    }

    /// The node carries no information and may be detached from its parent.
    pub open spec fn prunable(self) -> bool {
        !self.end_of_value && self.children@.len() == 0
    }

    /// Pruning invariant: no node strictly below this one is prunable.
    /// The node itself is exempt, so a root may be empty.
    pub open spec fn pruned(self) -> bool
        decreases self,
    {
        forall|i: int|
            0 <= i < self.children@.len()
                ==> !(#[trigger] self.children@[i].1).prunable()
                    && self.children@[i].1.pruned()
    }

    /// The number of stored sequences in the subtree rooted at this node.
    pub open spec fn count_spec(self) -> nat
        decreases self,
    {
        (if self.end_of_value { 1nat } else { 0nat }) + Self::count_children(self.children@)
    }

    /// The total number of stored sequences under a sequence of children.
    pub open spec fn count_children(s: Seq<(char, TrieNode)>) -> nat
        decreases s,
    {
        if s.len() == 0 {
            0nat
        } else {
            s[0].1.count_spec() + Self::count_children(s.drop_first())
        }
    }

    /// Under unique keys, any index holding key `c` is the child index for `c`.
    pub proof fn lemma_key_index(self, i: int)
        requires
            self.keys_unique(),
            0 <= i < self.children@.len(),
        ensures
            self.has_key(self.children@[i].0),
            self.key_index(self.children@[i].0) == i,
            self.child(self.children@[i].0) == self.children@[i].1,
    {
        let c = self.children@[i].0;
        assert(self.has_key(c));
        let j = self.key_index(c);
        if i != j {
            assert(self.children@[i].0 != self.children@[j].0);
        }
    }

    /// A prunable node stores nothing at all.
    pub proof fn lemma_prunable_no_member(self, t: Seq<char>)
        requires
            self.prunable(),
        ensures
            !self.spec_contains(t),
    {
    }

    /// A node that stores some sequence is not prunable.
    pub proof fn lemma_member_not_prunable(self, t: Seq<char>)
        requires
            self.spec_contains(t),
        ensures
            !self.prunable(),
    {
    }

    /// Counting is unchanged when one child is replaced by another,
    /// except for the difference between the two subtree counts.
    pub proof fn lemma_count_children_update(s: Seq<(char, TrieNode)>, i: int, p: (char, TrieNode))
        requires
            0 <= i < s.len(),
        ensures
            Self::count_children(s.update(i, p)) + s[i].1.count_spec()
                == Self::count_children(s) + p.1.count_spec(),
        decreases s.len(),
    {
        if i == 0 {
            assert(s.update(0, p).drop_first() =~= s.drop_first());
        } else {
            assert(s.update(i, p).drop_first() =~= s.drop_first().update(i - 1, p));
            Self::lemma_count_children_update(s.drop_first(), i - 1, p);
        }
    }

    /// Appending a child adds exactly that child's subtree count.
    pub proof fn lemma_count_children_push(s: Seq<(char, TrieNode)>, p: (char, TrieNode))
        ensures
            Self::count_children(s.push(p)) == Self::count_children(s) + p.1.count_spec(),
        decreases s.len(),
    {
        if s.len() == 0 {
            assert(s.push(p)[0] == p);
            assert(s.push(p).drop_first() =~= s);
        } else {
            assert(s.push(p).drop_first() =~= s.drop_first().push(p));
            Self::lemma_count_children_push(s.drop_first(), p);
        }
    }

    /// Detaching a child removes exactly that child's subtree count.
    pub proof fn lemma_count_children_remove(s: Seq<(char, TrieNode)>, i: int)
        requires
            0 <= i < s.len(),
        ensures
            Self::count_children(s.remove(i)) + s[i].1.count_spec() == Self::count_children(s),
        decreases s.len(),
    {
        if i == 0 {
            assert(s.remove(0) =~= s.drop_first());
        } else {
            assert(s.remove(i).drop_first() =~= s.drop_first().remove(i - 1));
            Self::lemma_count_children_remove(s.drop_first(), i - 1);
        }
    }

    /// Two sequences of children whose subtree counts agree position by
    /// position have the same total.
    pub proof fn lemma_count_children_pointwise(a: Seq<(char, TrieNode)>, b: Seq<(char, TrieNode)>)
        requires
            a.len() == b.len(),
            forall|k: int| 0 <= k < a.len() ==> a[k].1.count_spec() == b[k].1.count_spec(),
        ensures
            Self::count_children(a) == Self::count_children(b),
        decreases a.len(),
    {
        if a.len() > 0 {
            Self::lemma_count_children_pointwise(a.drop_first(), b.drop_first());
        }
    }

    /// The total over a sequence of children is at least any single share.
    pub proof fn lemma_count_children_ge(s: Seq<(char, TrieNode)>, i: int)
        requires
            0 <= i < s.len(),
        ensures
            Self::count_children(s) >= s[i].1.count_spec(),
        decreases s.len(),
    {
        if i > 0 {
            Self::lemma_count_children_ge(s.drop_first(), i - 1);
        }
    }

    /// The total over a sequence of children is at least the total over a
    /// prefix of it plus the share of the first child past that prefix.
    pub proof fn lemma_count_children_take_ge(s: Seq<(char, TrieNode)>, i: int)
        requires
            0 <= i < s.len(),
        ensures
            Self::count_children(s) >= Self::count_children(s.take(i)) + s[i].1.count_spec(),
        decreases i,
    {
        if i == 0 {
            assert(s.take(0) =~= Seq::<(char, TrieNode)>::empty());
        } else {
            assert(s.take(i).drop_first() =~= s.drop_first().take(i - 1));
            assert(s.take(i)[0] == s[0]);
            Self::lemma_count_children_take_ge(s.drop_first(), i - 1);
        }
    }

    /// A node that stores some sequence counts at least one.
    pub proof fn lemma_member_count_pos(self, t: Seq<char>)
        requires
            self.spec_contains(t),
        ensures
            self.count_spec() >= 1,
        decreases t.len(),
    {
        if t.len() > 0 {
            let j = self.key_index(t[0]);
            self.child(t[0]).lemma_member_count_pos(t.drop_first());
            Self::lemma_count_children_ge(self.children@, j);
        }
    }

    /// A node that counts at least one stores some sequence.
    pub proof fn lemma_count_pos_member(self)
        requires
            self.wf(),
            self.count_spec() >= 1,
        ensures
            exists|t: Seq<char>| self.spec_contains(t),
        decreases self,
    {
        if self.end_of_value {
            assert(self.spec_contains(Seq::<char>::empty()));
        } else {
            let i = Self::lemma_count_children_pos(self.children@);
            self.lemma_key_index(i);
            let c = self.children@[i].0;
            let child = self.children@[i].1;
            child.lemma_count_pos_member();
            let t0 = choose|t0: Seq<char>| child.spec_contains(t0);
            let t = seq![c] + t0;
            assert(t[0] == c);
            assert(t.drop_first() =~= t0);
            assert(self.spec_contains(t));
        }
    }

    /// If the total over a sequence of children is positive, some child's
    /// own share is. Returns such a child's position.
    pub proof fn lemma_count_children_pos(s: Seq<(char, TrieNode)>) -> (i: int)
        requires
            Self::count_children(s) >= 1,
        ensures
            0 <= i < s.len() && s[i].1.count_spec() >= 1,
        decreases s.len(),
    {
        if s[0].1.count_spec() >= 1 {
            0
        } else {
            Self::lemma_count_children_pos(s.drop_first()) + 1
        }
    }

    /// A well-formed, pruned node with at least one child stores some
    /// sequence of positive length.
    pub proof fn lemma_pruned_nonempty_member(self)
        requires
            self.wf(),
            self.pruned(),
            self.children@.len() > 0,
        ensures
            exists|t: Seq<char>| self.spec_contains(t) && t.len() > 0,
        decreases self,
    {
        self.lemma_key_index(0);
        let c = self.children@[0].0;
        let child = self.children@[0].1;
        if child.end_of_value {
            let t = seq![c];
            assert(t[0] == c);
            assert(t.drop_first() =~= Seq::<char>::empty());
            assert(child.spec_contains(t.drop_first()));
            assert(self.spec_contains(t) && t.len() > 0);
        } else {
            child.lemma_pruned_nonempty_member();
            let t0 = choose|t0: Seq<char>| child.spec_contains(t0) && t0.len() > 0;
            let t = seq![c] + t0;
            assert(t[0] == c);
            assert(t.drop_first() =~= t0);
            assert(self.spec_contains(t) && t.len() > 0);
        }
    }

    /// Membership before and after replacing the subtree of one child,
    /// keeping that child's key: sequences through other children are
    /// untouched, and sequences through the replaced child follow it.
    pub proof fn lemma_contains_update(pre: TrieNode, post: TrieNode, i: int, t: Seq<char>)
        requires
            pre.keys_unique(),
            0 <= i < pre.children@.len(),
            post.end_of_value == pre.end_of_value,
            post.children@ == pre.children@.update(i, (pre.children@[i].0, post.children@[i].1)),
        ensures
            post.keys_unique(),
            t.len() == 0 ==> post.spec_contains(t) == pre.spec_contains(t),
            t.len() > 0 && t[0] != pre.children@[i].0 ==> post.spec_contains(t) == pre.spec_contains(
                t,
            ),
            t.len() > 0 && t[0] == pre.children@[i].0 ==> post.spec_contains(t)
                == post.children@[i].1.spec_contains(t.drop_first()) && pre.spec_contains(t)
                == pre.children@[i].1.spec_contains(t.drop_first()),
    {
        let c = pre.children@[i].0;
        assert(forall|k: int|
            0 <= k < post.children@.len() ==> post.children@[k].0 == pre.children@[k].0);
        assert(post.keys_unique());
        if t.len() > 0 {
            if t[0] == c {
                pre.lemma_key_index(i);
                post.lemma_key_index(i);
            } else {
                if pre.has_key(t[0]) {
                    let j = pre.key_index(t[0]);
                    pre.lemma_key_index(j);
                    post.lemma_key_index(j);
                }
                if post.has_key(t[0]) {
                    let j = post.key_index(t[0]);
                    post.lemma_key_index(j);
                    pre.lemma_key_index(j);
                }
            }
        }
    }

    /// Membership is unchanged when a fresh, empty child is appended.
    pub proof fn lemma_contains_push_empty(pre: TrieNode, post: TrieNode, c: char, t: Seq<char>)
        requires
            pre.keys_unique(),
            !pre.has_key(c),
            post.end_of_value == pre.end_of_value,
            post.children@.len() == pre.children@.len() + 1,
            post.children@ == pre.children@.push(post.children@.last()),
            post.children@.last().0 == c,
            post.children@.last().1.prunable(),
        ensures
            post.keys_unique(),
            post.spec_contains(t) == pre.spec_contains(t),
            post.has_key(c),
            post.key_index(c) == pre.children@.len(),
    {
        let n = pre.children@.len() as int;
        assert(forall|k: int| 0 <= k < n ==> post.children@[k] == pre.children@[k]);
        assert(post.keys_unique());
        post.lemma_key_index(n);
        if t.len() > 0 {
            if t[0] == c {
                post.children@[n].1.lemma_prunable_no_member(t.drop_first());
            } else {
                if pre.has_key(t[0]) {
                    let j = pre.key_index(t[0]);
                    pre.lemma_key_index(j);
                    post.lemma_key_index(j);
                }
                if post.has_key(t[0]) {
                    let j = post.key_index(t[0]);
                    post.lemma_key_index(j);
                    pre.lemma_key_index(j);
                }
            }
        }
    }

    /// Membership is unchanged when a prunable child is detached: such a
    /// child stores nothing.
    pub proof fn lemma_contains_remove_prunable(pre: TrieNode, post: TrieNode, i: int, t: Seq<char>)
        requires
            pre.keys_unique(),
            0 <= i < pre.children@.len(),
            pre.children@[i].1.prunable(),
            post.end_of_value == pre.end_of_value,
            post.children@ == pre.children@.remove(i),
        ensures
            post.keys_unique(),
            post.spec_contains(t) == pre.spec_contains(t),
    {
        let c = pre.children@[i].0;
        assert(forall|k: int|
            0 <= k < post.children@.len() ==> post.children@[k] == (if k < i {
                pre.children@[k]
            } else {
                pre.children@[k + 1]
            }));
        assert(post.keys_unique());
        if t.len() > 0 {
            if t[0] == c {
                pre.lemma_key_index(i);
                pre.children@[i].1.lemma_prunable_no_member(t.drop_first());
                assert(!pre.spec_contains(t));
                if post.has_key(c) {
                    let k = post.key_index(c);
                    post.lemma_key_index(k);
                    if k < i {
                        assert(pre.children@[k].0 == pre.children@[i].0);
                    } else {
                        assert(pre.children@[k + 1].0 == pre.children@[i].0);
                    }
                }
                assert(!post.spec_contains(t));
            } else {
                if pre.has_key(t[0]) {
                    let j = pre.key_index(t[0]);
                    pre.lemma_key_index(j);
                    if j < i {
                        post.lemma_key_index(j);
                    } else {
                        assert(j != i);
                        assert(post.children@[j - 1] == pre.children@[j]);
                        post.lemma_key_index(j - 1);
                    }
                }
                if post.has_key(t[0]) {
                    let k = post.key_index(t[0]);
                    post.lemma_key_index(k);
                    if k < i {
                        pre.lemma_key_index(k);
                    } else {
                        pre.lemma_key_index(k + 1);
                    }
                }
            }
        }
    }

    /// Creates a new empty node.
    pub fn empty() -> (r: Self)
        ensures
            r.children@.len() == 0,
            !r.end_of_value,
            r.wf(),
    {
        TrieNode { children: Vec::new(), end_of_value: false }
    }

    /// Returns `true` if the node contains no child nodes.
    pub fn is_empty(&self) -> (r: bool)
        ensures
            r == (self.children@.len() == 0),
    {
        self.children.len() == 0
    }

    /// Returns the number of direct child nodes of this node.
    pub fn len(&self) -> (r: usize)
        ensures
            r == self.children@.len(),
    {
        self.children.len()
    }

    /// Returns `true` if this node forms the end of a stored sequence.
    pub fn is_end_of_word(&self) -> (r: bool)
        ensures
            r == self.end_of_value,
    {
        self.end_of_value
    }

    /// Removes all children and resets the terminal flag, leaving the node
    /// as an empty subtree.
    pub fn clear(&mut self)
        ensures
            final(self).children@.len() == 0,
            !final(self).end_of_value,
            final(self).wf(),
            final(self).pruned(),
            final(self).count_spec() == 0,
            forall|s: Seq<char>| !final(self).spec_contains(s),
    {
        self.children.clear();
        self.end_of_value = false;
    }

    /// Returns `true` if this node can be safely removed from its parent.
    fn can_remove(&self) -> (r: bool)
        ensures
            r == self.prunable(),
    {
        !self.end_of_value && self.children.len() == 0
    }

    /// The position of the direct child keyed by `c`, if there is one.
    fn find_child_index(&self, c: char) -> (r: Option<usize>)
        requires
            self.keys_unique(),
        ensures
            match r {
                Some(i) => i < self.children@.len() && self.children@[i as int].0 == c
                    && self.has_key(c) && self.key_index(c) == i,
                None => !self.has_key(c),
            },
    {
        let n = self.children.len();
        let mut i: usize = 0;
        while i < n
            invariant
                n == self.children@.len(),
                i <= n,
                self.keys_unique(),
                forall|j: int| 0 <= j < i ==> self.children@[j].0 != c,
            decreases n - i,
        {
            if self.children[i].0 == c {
                proof {
                    self.lemma_key_index(i as int);
                }
                return Some(i);
            }
            i += 1;
        }
        None
    }

    /// Returns the position of the child node for `value`, creating and
    /// appending an empty child if none exists yet.
    pub(crate) fn get_or_create(&mut self, value: char) -> (i: usize)
        requires
            old(self).keys_unique(),
        ensures
            final(self).keys_unique(),
            final(self).end_of_value == old(self).end_of_value,
            i < final(self).children@.len(),
            final(self).children@[i as int].0 == value,
            final(self).key_index(value) == i,
            old(self).has_key(value) ==> *final(self) == *old(self),
            !old(self).has_key(value) ==> final(self).children@ == old(self).children@.push(
                final(self).children@.last(),
            ) && final(self).children@.last().1.prunable(),
    {
        match self.find_child_index(value) {
            Some(i) => i,
            None => {
                let n = self.children.len();
                self.children.push((value, TrieNode::empty()));
                proof {
                    assert(self.children@ == old(self).children@.push(self.children@.last()));
                    assert(forall|k: int, l: int|
                        0 <= k < l < n ==> self.children@[k].0 != self.children@[l].0);
                    assert(forall|k: int|
                        0 <= k < n ==> self.children@[k].0 != value);
                    assert(self.keys_unique());
                    self.lemma_key_index(n as int);
                }
                n
            },
        }
    }

    /// Stores the suffix of `s` that starts at position `i` in the subtree
    /// rooted at this node, creating missing nodes along the path and
    /// marking the final node terminal. Returns `true` iff that suffix was
    /// not already stored here.
    pub(crate) fn insert_branch(&mut self, s: &Vec<char>, i: usize) -> (is_new: bool)
        requires
            old(self).wf(),
            i <= s@.len(),
        ensures
            final(self).wf(),
            old(self).pruned() ==> final(self).pruned(),
            is_new == !old(self).spec_contains(s@.skip(i as int)),
            forall|t: Seq<char>|
                final(self).spec_contains(t) <==> (old(self).spec_contains(t) || t == s@.skip(
                    i as int,
                )),
            final(self).count_spec() == old(self).count_spec() + (if is_new {
                1nat
            } else {
                0nat
            }),
        decreases s@.len() - i,
    {
        let ghost si = s@.skip(i as int);
        if i == s.len() {
            let was = self.end_of_value;
            self.end_of_value = true;
            proof {
                assert(si.len() == 0);
                if was {
                    assert(*self == *old(self));
                }
                assert forall|t: Seq<char>|
                    self.spec_contains(t) <==> (old(self).spec_contains(t) || t == si) by {
                    if t.len() == 0 {
                        assert(t =~= si);
                    } else {
                        assert(t != si);
                        if old(self).has_key(t[0]) {
                            let j = old(self).key_index(t[0]);
                            old(self).lemma_key_index(j);
                            self.lemma_key_index(j);
                        }
                        if self.has_key(t[0]) {
                            let j = self.key_index(t[0]);
                            self.lemma_key_index(j);
                            old(self).lemma_key_index(j);
                        }
                    }
                }
            }
            !was
        } else {
            let c = s[i];
            let ghost pre0 = *old(self);
            let idx = self.get_or_create(c);
            let ghost pre = *self;
            let is_new = self.children[idx].1.insert_branch(s, i + 1);
            proof {
                let ghost ix = idx as int;
                let ghost cpre = pre.children@[ix].1;
                let ghost cpost = self.children@[ix].1;
                assert(si[0] == c);
                assert(si.drop_first() =~= s@.skip(i as int + 1));
                assert(self.children@ == pre.children@.update(ix, (c, cpost)));
                // Count: only the subtree at ix changed.
                TrieNode::lemma_count_children_update(pre.children@, ix, (c, cpost));
                if !pre0.has_key(c) {
                    TrieNode::lemma_count_children_push(pre0.children@, pre.children@.last());
                    TrieNode::lemma_contains_push_empty(pre0, pre, c, si);
                    cpre.lemma_prunable_no_member(si.drop_first());
                }
                // is_new speaks of the original subtree.
                TrieNode::lemma_contains_update(pre, *self, ix, si);
                // Membership for every sequence.
                assert forall|t: Seq<char>|
                    self.spec_contains(t) <==> (pre0.spec_contains(t) || t == si) by {
                    TrieNode::lemma_contains_update(pre, *self, ix, t);
                    if !pre0.has_key(c) {
                        TrieNode::lemma_contains_push_empty(pre0, pre, c, t);
                    }
                    if t.len() > 0 && t[0] == c {
                        if t.drop_first() == s@.skip(i as int + 1) {
                            assert(t.len() == si.len());
                            assert forall|k: int| 0 <= k < t.len() implies t[k] == si[k] by {
                                if k > 0 {
                                    assert(t[k] == t.drop_first()[k - 1]);
                                    assert(si[k] == si.drop_first()[k - 1]);
                                }
                            }
                            assert(t =~= si);
                        }
                        if t == si {
                            assert(t.drop_first() == si.drop_first());
                        }
                    } else {
                        assert(t != si);
                    }
                }
                // Well-formedness of the updated node.
                assert forall|k: int|
                    0 <= k < self.children@.len() implies (#[trigger] self.children@[k].1).wf() by {
                    if k != ix {
                        assert(self.children@[k].1 == pre.children@[k].1);
                    }
                }
                // Pruning invariant, when it held before.
                if pre0.pruned() {
                    cpost.lemma_member_not_prunable(si.drop_first());
                    assert forall|k: int|
                        0 <= k < self.children@.len() implies !(
                        #[trigger] self.children@[k].1).prunable()
                        && self.children@[k].1.pruned() by {
                        if k != ix {
                            assert(self.children@[k] == pre0.children@[k]);
                        }
                    }
                }
            }
            is_new
        }
    }

    /// Walks the suffix of `s` that starts at position `i` and, if its end
    /// is marked terminal, clears the mark; on the way back up it detaches
    /// every child that has become prunable. Returns `true` iff a stored
    /// sequence was actually removed.
    pub(crate) fn remove_internal(&mut self, s: &Vec<char>, i: usize) -> (removed: bool)
        requires
            old(self).wf(),
            i <= s@.len(),
        ensures
            final(self).wf(),
            old(self).pruned() ==> final(self).pruned(),
            removed == old(self).spec_contains(s@.skip(i as int)),
            forall|t: Seq<char>|
                final(self).spec_contains(t) <==> (old(self).spec_contains(t) && t != s@.skip(
                    i as int,
                )),
            final(self).count_spec() + (if removed {
                1nat
            } else {
                0nat
            }) == old(self).count_spec(),
        decreases s@.len() - i,
    {
        let ghost si = s@.skip(i as int);
        if i == s.len() {
            let was = self.end_of_value;
            if was {
                self.end_of_value = false;
            }
            proof {
                assert(si.len() == 0);
                if !was {
                    assert(*self == *old(self));
                }
                assert forall|t: Seq<char>|
                    self.spec_contains(t) <==> (old(self).spec_contains(t) && t != si) by {
                    if t.len() == 0 {
                        assert(t =~= si);
                    } else {
                        assert(t != si);
                        if old(self).has_key(t[0]) {
                            let j = old(self).key_index(t[0]);
                            old(self).lemma_key_index(j);
                            self.lemma_key_index(j);
                        }
                        if self.has_key(t[0]) {
                            let j = self.key_index(t[0]);
                            self.lemma_key_index(j);
                            old(self).lemma_key_index(j);
                        }
                    }
                }
            }
            was
        } else {
            let c = s[i];
            match self.find_child_index(c) {
                None => {
                    proof {
                        assert(si[0] == c);
                        assert(!old(self).spec_contains(si));
                    }
                    false
                },
                Some(idx) => {
                    let ghost pre0 = *old(self);
                    let ghost ix = idx as int;
                    let removed = self.children[idx].1.remove_internal(s, i + 1);
                    let ghost mid = *self;
                    let prune = self.children[idx].1.can_remove();
                    if prune {
                        self.children.remove(idx);
                    }
                    proof {
                        let ghost cpre = pre0.children@[ix].1;
                        let ghost cmid = mid.children@[ix].1;
                        assert(si[0] == c);
                        assert(si.drop_first() =~= s@.skip(i as int + 1));
                        assert(mid.children@ == pre0.children@.update(ix, (c, cmid)));
                        pre0.lemma_key_index(ix);
                        // Count: the subtree at ix changed, and was perhaps detached.
                        TrieNode::lemma_count_children_update(pre0.children@, ix, (c, cmid));
                        if prune {
                            assert(cmid.count_spec() == 0);
                            TrieNode::lemma_count_children_remove(mid.children@, ix);
                        } else {
                            assert(*self == mid);
                        }
                        // The removed flag speaks of the original subtree.
                        TrieNode::lemma_contains_update(pre0, mid, ix, si);
                        // Membership for every sequence.
                        assert forall|t: Seq<char>|
                            self.spec_contains(t) <==> (pre0.spec_contains(t) && t != si) by {
                            TrieNode::lemma_contains_update(pre0, mid, ix, t);
                            if prune {
                                TrieNode::lemma_contains_remove_prunable(mid, *self, ix, t);
                            }
                            if t.len() > 0 && t[0] == c {
                                if t.drop_first() == s@.skip(i as int + 1) {
                                    assert(t.len() == si.len());
                                    assert forall|k: int| 0 <= k < t.len() implies t[k] == si[k] by {
                                        if k > 0 {
                                            assert(t[k] == t.drop_first()[k - 1]);
                                            assert(si[k] == si.drop_first()[k - 1]);
                                        }
                                    }
                                    assert(t =~= si);
                                }
                                if t == si {
                                    assert(t.drop_first() == si.drop_first());
                                }
                            } else {
                                assert(t != si);
                            }
                        }
                        // Well-formedness of what is left.
                        assert forall|k: int|
                            0 <= k < mid.children@.len() implies (
                        #[trigger] mid.children@[k].1).wf() by {
                            if k != ix {
                                assert(mid.children@[k].1 == pre0.children@[k].1);
                            }
                        }
                        assert(mid.wf());
                        if prune {
                            assert(forall|k: int|
                                0 <= k < self.children@.len() ==> self.children@[k] == (if k < ix {
                                    mid.children@[k]
                                } else {
                                    mid.children@[k + 1]
                                }));
                        }
                        // Pruning invariant, when it held before.
                        if pre0.pruned() {
                            assert forall|k: int|
                                0 <= k < self.children@.len() implies !(
                            #[trigger] self.children@[k].1).prunable()
                                && self.children@[k].1.pruned() by {
                                if prune {
                                    if k < ix {
                                        assert(self.children@[k] == pre0.children@[k]);
                                    } else {
                                        assert(self.children@[k] == pre0.children@[k + 1]);
                                    }
                                } else {
                                    if k != ix {
                                        assert(self.children@[k] == pre0.children@[k]);
                                    }
                                }
                            }
                        }
                    }
                    removed
                },
            }
        }
    }

    /// Removes the sequence `s` from the subtree rooted at this node,
    /// pruning the branch it sat on. Returns `true` iff `s` was stored.
    pub(crate) fn remove_branch(&mut self, s: &Vec<char>) -> (removed: bool)
        requires
            old(self).wf(),
        ensures
            final(self).wf(),
            old(self).pruned() ==> final(self).pruned(),
            removed == old(self).spec_contains(s@),
            forall|t: Seq<char>|
                final(self).spec_contains(t) <==> (old(self).spec_contains(t) && t != s@),
            final(self).count_spec() + (if removed {
                1nat
            } else {
                0nat
            }) == old(self).count_spec(),
    {
        proof {
            assert(s@.skip(0) =~= s@);
        }
        self.remove_internal(s, 0)
    }

    /// Returns a deep, independently owned copy of the subtree rooted at
    /// this node: it stores the same sequences, counts the same, and
    /// satisfies the pruning invariant whenever the original does.
    pub fn duplicate(&self) -> (r: TrieNode)
        requires
            self.wf(),
        ensures
            r.wf(),
            r.end_of_value == self.end_of_value,
            r.children@.len() == self.children@.len(),
            r.count_spec() == self.count_spec(),
            self.pruned() ==> r.pruned(),
            forall|t: Seq<char>| r.spec_contains(t) == self.spec_contains(t),
        decreases *self,
    {
        let n = self.children.len();
        let mut children: Vec<(char, TrieNode)> = Vec::new();
        let mut i: usize = 0;
        while i < n
            invariant
                n == self.children@.len(),
                i <= n,
                self.wf(),
                children@.len() == i,
                forall|k: int|
                    0 <= k < i ==> (#[trigger] children@[k]).0 == self.children@[k].0,
                forall|k: int|
                    0 <= k < i ==> (#[trigger] children@[k]).1.wf()
                        && children@[k].1.end_of_value == self.children@[k].1.end_of_value
                        && children@[k].1.children@.len() == self.children@[k].1.children@.len()
                        && children@[k].1.count_spec() == self.children@[k].1.count_spec()
                        && (self.children@[k].1.pruned() ==> children@[k].1.pruned()),
                forall|k: int, t: Seq<char>|
                    0 <= k < i ==> (#[trigger] children@[k].1.spec_contains(t))
                        == self.children@[k].1.spec_contains(t),
            decreases n - i,
        {
            let c = self.children[i].0;
            let child = self.children[i].1.duplicate();
            children.push((c, child));
            i += 1;
        }
        let ghost cs = children@;
        let r = TrieNode { children, end_of_value: self.end_of_value };
        proof {
            assert(r.children@ == cs);
            assert(r.keys_unique());
            TrieNode::lemma_count_children_pointwise(r.children@, self.children@);
            assert forall|t: Seq<char>|
                r.spec_contains(t) == self.spec_contains(t) by {
                if t.len() > 0 {
                    if self.has_key(t[0]) {
                        let j = self.key_index(t[0]);
                        self.lemma_key_index(j);
                        r.lemma_key_index(j);
                        assert(cs[j].1.spec_contains(t.drop_first()) == self.children@[
                            j
                        ].1.spec_contains(t.drop_first()));
                    }
                    if r.has_key(t[0]) {
                        let j = r.key_index(t[0]);
                        r.lemma_key_index(j);
                        self.lemma_key_index(j);
                        assert(cs[j].1.spec_contains(t.drop_first()) == self.children@[
                            j
                        ].1.spec_contains(t.drop_first()));
                    }
                }
            }
            if self.pruned() {
                assert forall|k: int|
                    0 <= k < r.children@.len() implies !(#[trigger] r.children@[k].1).prunable()
                    && r.children@[k].1.pruned() by {}
            }
        }
        r
    }

    /// Checks that the subtree rooted at this node is well formed (unique
    /// child keys throughout) and satisfies the pruning invariant (no node
    /// below this one is prunable). The node itself may be empty.
    pub fn check_structure(&self) -> (r: bool)
        ensures
            r == (self.wf() && self.pruned()),
        decreases *self,
    {
        let n = self.children.len();
        let mut i: usize = 0;
        while i < n
            invariant
                n == self.children@.len(),
                i <= n,
                forall|k: int, l: int|
                    0 <= k < l < n && k < i ==> self.children@[k].0 != self.children@[l].0,
            decreases n - i,
        {
            let mut j: usize = i + 1;
            while j < n
                invariant
                    n == self.children@.len(),
                    i < j || i + 1 == j,
                    i < n,
                    j <= n,
                    forall|l: int| i < l < j ==> self.children@[i as int].0 != self.children@[l].0,
                decreases n - j,
            {
                if self.children[i].0 == self.children[j].0 {
                    assert(!self.keys_unique());
                    return false;
                }
                j += 1;
            }
            i += 1;
        }
        assert(self.keys_unique());
        let mut i: usize = 0;
        while i < n
            invariant
                n == self.children@.len(),
                i <= n,
                self.keys_unique(),
                forall|k: int|
                    0 <= k < i ==> (#[trigger] self.children@[k].1).wf()
                        && self.children@[k].1.pruned() && !self.children@[k].1.prunable(),
            decreases n - i,
        {
            let child = &self.children[i].1;
            if !child.is_end_of_word() && child.is_empty() {
                return false;
            }
            if !child.check_structure() {
                return false;
            }
            i += 1;
        }
        true
    }

    /// Counts the stored sequences in the subtree rooted at this node,
    /// reporting failure instead of overflowing.
    pub fn try_count(&self) -> (r: Option<usize>)
        ensures
            match r {
                Some(c) => c as nat == self.count_spec(),
                None => self.count_spec() > usize::MAX,
            },
        decreases *self,
    {
        let mut total: usize = if self.is_end_of_word() {
            1
        } else {
            0
        };
        let n = self.children.len();
        let mut i: usize = 0;
        while i < n
            invariant
                n == self.children@.len(),
                i <= n,
                total as nat == (if self.end_of_value {
                    1nat
                } else {
                    0nat
                }) + Self::count_children(self.children@.take(i as int)),
            decreases n - i,
        {
            match self.children[i].1.try_count() {
                None => {
                    proof {
                        Self::lemma_count_children_ge(self.children@, i as int);
                    }
                    return None;
                },
                Some(c) => {
                    proof {
                        Self::lemma_count_children_take_ge(self.children@, i as int);
                    }
                    if total > usize::MAX - c {
                        return None;
                    }
                    total += c;
                    proof {
                        assert(self.children@.take(i as int + 1) =~= self.children@.take(
                            i as int,
                        ).push(self.children@[i as int]));
                        Self::lemma_count_children_push(
                            self.children@.take(i as int),
                            self.children@[i as int],
                        );
                    }
                },
            }
            i += 1;
        }
        proof {
            assert(self.children@.take(n as int) =~= self.children@);
        }
        Some(total)
    }

    /// Returns an enumerator over the subtree rooted at this node: it
    /// yields an owned copy of every stored sequence of positive length,
    /// each exactly once, in an unspecified order.
    pub fn iter(&self) -> (r: crate::iter::TrieIter)
        requires
            self.wf(),
        ensures
            forall|s: Seq<char>|
                r.remaining().contains(s) <==> (self.spec_contains(s) && s.len() > 0),
            r.remaining().no_duplicates(),
    {
        crate::iter::TrieIter::new(self)
    }

    /// Returns an immutable reference to the child node for `c`, if present.
    pub fn get(&self, value: &char) -> (r: Option<&TrieNode>)
        requires
            self.keys_unique(),
        ensures
            match r {
                Some(node) => self.has_key(*value) && *node == self.child(*value),
                None => !self.has_key(*value),
            },
    {
        match self.find_child_index(*value) {
            Some(i) => Some(&self.children[i].1),
            None => None,
        }
    }
}

} // verus!
