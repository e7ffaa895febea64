use vstd::prelude::*;

use crate::iter::TrieIter;
use crate::node::TrieNode;

verus! {

/// Stores a set of distinct character sequences efficiently in memory.
///
/// Sequences that share a prefix share the nodes along that prefix, so a
/// membership test walks at most one node per symbol. The container owns
/// the root node of the tree and keeps a cached count of the stored
/// sequences; the two are always mutated together.
///
/// The abstract value of a trie, written `self@`, is the set of the
/// stored sequences, each a `Seq<char>`.
pub struct Trie {
    /// Root node; the tree below it holds every stored sequence.
    root: TrieNode,
    /// The number of stored sequences.
    count: usize,
}

impl View for Trie {
    type V = Set<Seq<char>>;

    /// The set of stored sequences.
    closed spec fn view(&self) -> Set<Seq<char>> {
        Set::new(|s: Seq<char>| self.root.spec_contains(s))
    }
}

impl Trie {
    /// The tree is well formed, no node below the root is prunable, and
    /// the cached count matches the number of stored sequences.
    #[verifier::type_invariant]
    spec fn inv(self) -> bool {
        self.root.wf() && self.root.pruned() && self.count as nat == self.root.count_spec()
    }

    /// The root node.
    pub closed spec fn spec_root(self) -> TrieNode {
        self.root
    }

    /// The number of stored sequences.
    pub closed spec fn spec_len(self) -> nat {
        self.count as nat
    }

    /// Creates a new empty trie.
    pub fn new() -> (r: Self)
        ensures
            forall|s: Seq<char>| !r@.contains(s),
            r.spec_len() == 0,
    {
        Trie { root: TrieNode::empty(), count: 0 }
    }

    /// Returns the number of sequences stored in the trie. The count is
    /// zero exactly when no sequence at all is stored.
    pub fn len(&self) -> (r: usize)
        ensures
            r == self.spec_len(),
            (r == 0) <==> (forall|s: Seq<char>| !self@.contains(s)),
    {
        proof {
            use_type_invariant(self);
            if self.count == 0 {
                assert forall|s: Seq<char>| !self@.contains(s) by {
                    if self.root.spec_contains(s) {
                        self.root.lemma_member_count_pos(s);
                    }
                }
            } else {
                self.root.lemma_count_pos_member();
                let t = choose|t: Seq<char>| self.root.spec_contains(t);
                assert(self@.contains(t));
            }
        }
        self.count
    }

    /// Returns `true` if the root node has no children, that is, if no
    /// sequence of positive length is stored. A trie holding only the
    /// empty sequence reports itself as empty, since its tree is.
    pub fn is_empty(&self) -> (r: bool)
        ensures
            r <==> (forall|s: Seq<char>| self@.contains(s) ==> s.len() == 0),
    {
        proof {
            use_type_invariant(self);
            if self.root.children@.len() > 0 {
                self.root.lemma_pruned_nonempty_member();
            }
        }
        self.root.is_empty()
    }

    /// Clears the trie, removing every stored sequence.
    pub fn clear(&mut self)
        ensures
            forall|s: Seq<char>| !final(self)@.contains(s),
            final(self).spec_len() == 0,
    {
        proof {
            use_type_invariant(&*self);
        }
        let mut tmp = Trie::new();
        core::mem::swap(self, &mut tmp);
        let Trie { root: mut root, count: _ } = tmp;
        root.clear();
        *self = Trie { root, count: 0 };
    }

    /// Inserts a sequence into the trie, creating missing nodes along its
    /// path and marking the final node terminal.
    ///
    /// Returns `true` iff the sequence was not stored before; the length
    /// grows by one exactly in that case. The empty sequence is a valid
    /// input and marks the root terminal.
    pub fn insert(&mut self, value: &Vec<char>) -> (is_new: bool)
        requires
            old(self).spec_len() < usize::MAX,
        ensures
            is_new == !old(self)@.contains(value@),
            final(self)@ == old(self)@.insert(value@),
            final(self).spec_len() == old(self).spec_len() + (if is_new {
                1nat
            } else {
                0nat
            }),
    {
        proof {
            use_type_invariant(&*self);
        }
        let mut tmp = Trie::new();
        core::mem::swap(self, &mut tmp);
        let Trie { root: mut root, count } = tmp;
        let is_new = root.insert_branch(value, 0);
        let count = if is_new {
            count + 1
        } else {
            count
        };
        *self = Trie { root, count };
        proof {
            assert(value@.skip(0) =~= value@);
            assert(self@ =~= old(self)@.insert(value@));
        }
        is_new
    }

    /// Removes a sequence from the trie, detaching every node on its path
    /// that becomes prunable.
    ///
    /// Returns `true` iff the sequence was stored; the length shrinks by
    /// one exactly in that case.
    pub fn remove(&mut self, value: &Vec<char>) -> (removed: bool)
        ensures
            removed == old(self)@.contains(value@),
            final(self)@ == old(self)@.remove(value@),
            final(self).spec_len() + (if removed {
                1nat
            } else {
                0nat
            }) == old(self).spec_len(),
    {
        proof {
            use_type_invariant(&*self);
        }
        let mut tmp = Trie::new();
        core::mem::swap(self, &mut tmp);
        let Trie { root: mut root, count } = tmp;
        proof {
            if old(self)@.contains(value@) {
                root.lemma_member_count_pos(value@);
            }
        }
        let removed = root.remove_branch(value);
        let count = if removed {
            count - 1
        } else {
            count
        };
        *self = Trie { root, count };
        proof {
            assert(self@ =~= old(self)@.remove(value@));
        }
        removed
    }

    /// Checks whether the trie stores the given sequence. Walks the tree
    /// symbol by symbol; a missing child on the way means absence, and
    /// otherwise the terminal flag of the node that was reached decides.
    pub fn contains(&self, value: &Vec<char>) -> (r: bool)
        ensures
            r == self@.contains(value@),
    {
        proof {
            use_type_invariant(self);
            assert(value@.skip(0) =~= value@);
        }
        let n = value.len();
        let mut cur: &TrieNode = &self.root;
        let mut i: usize = 0;
        while i < n
            invariant
                n == value@.len(),
                i <= n,
                cur.wf(),
                self.root.spec_contains(value@) == cur.spec_contains(value@.skip(i as int)),
            decreases n - i,
        {
            let ghost si = value@.skip(i as int);
            proof {
                assert(si[0] == value@[i as int]);
                assert(si.drop_first() =~= value@.skip(i as int + 1));
            }
            match cur.get(&value[i]) {
                Some(next) => {
                    cur = next;
                },
                None => {
                    return false;
                },
            }
            i += 1;
        }
        proof {
            assert(value@.skip(n as int).len() == 0);
        }
        cur.is_end_of_word()
    }

    /// Returns an immutable reference to the root node. The tree below it
    /// is well formed and pruned, and stores exactly the sequences of the
    /// trie; its count matches the trie's length.
    pub fn root(&self) -> (r: &TrieNode)
        ensures
            *r == self.spec_root(),
            r.wf(),
            r.pruned(),
            r.count_spec() == self.spec_len(),
            forall|s: Seq<char>| r.spec_contains(s) == self@.contains(s),
    {
        proof {
            use_type_invariant(self);
        }
        &self.root
    }

    /// Returns an enumerator over the trie. It yields an owned copy of
    /// every stored sequence of positive length, each exactly once, in an
    /// unspecified order. The empty sequence, if stored, is not yielded:
    /// the walk is seeded with the root's children.
    pub fn iter(&self) -> (r: TrieIter)
        ensures
            forall|s: Seq<char>| r.remaining().contains(s) <==> (self@.contains(s) && s.len() > 0),
            r.remaining().no_duplicates(),
    {
        proof {
            use_type_invariant(self);
        }
        let r = TrieIter::new(&self.root);
        proof {
            assert forall|s: Seq<char>|
                r.remaining().contains(s) <==> (self@.contains(s) && s.len() > 0) by {
                assert(self@.contains(s) == self.root.spec_contains(s));
            }
        }
        r
    }

    /// Rebuilds a trie from a root node and a stored-sequence count, as
    /// read back from a persisted representation.
    ///
    /// Succeeds exactly when the parts are consistent: the tree is well
    /// formed, no node below the root is prunable, and the count equals
    /// the number of stored sequences. The rebuilt trie stores exactly
    /// the sequences of the given tree.
    pub fn from_parts(root: TrieNode, count: usize) -> (r: Option<Trie>)
        ensures
            match r {
                Some(t) => root.wf() && root.pruned() && count as nat == root.count_spec()
                    && t.spec_root() == root && t.spec_len() == count && (forall|s: Seq<char>|
                    t@.contains(s) == root.spec_contains(s)),
                None => !(root.wf() && root.pruned() && count as nat == root.count_spec()),
            },
    {
        if !root.check_structure() {
            return None;
        }
        match root.try_count() {
            Some(c) => if c == count {
                Some(Trie { root, count })
            } else {
                None
            },
            None => None,
        }
    }
}

/// A sequence just inserted is stored, and inserting it again adds
/// nothing: the set of stored sequences is unchanged, so a second
/// `insert` of the same sequence reports `false` and leaves the length
/// alone.
pub proof fn lemma_insert_twice(prior: Set<Seq<char>>, s: Seq<char>)
    ensures
        prior.insert(s).contains(s),
        prior.insert(s).insert(s) == prior.insert(s),
{
    assert(prior.insert(s).insert(s) =~= prior.insert(s));
}

/// Removing a sequence that is not stored changes nothing: `remove`
/// then reports `false` and leaves the stored set and the length alone.
pub proof fn lemma_remove_non_member(prior: Set<Seq<char>>, s: Seq<char>)
    requires
        !prior.contains(s),
    ensures
        prior.remove(s) == prior,
{
    assert(prior.remove(s) =~= prior);
}

/// After a removal, the removed sequence is no longer stored, while
/// every other stored sequence still is.
pub proof fn lemma_remove_keeps_others(prior: Set<Seq<char>>, s: Seq<char>, t: Seq<char>)
    ensures
        !prior.remove(s).contains(s),
        t != s ==> prior.remove(s).contains(t) == prior.contains(t),
{
}

} // verus!
