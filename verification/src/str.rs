use vstd::prelude::*;

use crate::node::TrieNode;
use crate::string::str_to_chars;
use crate::trie::Trie;

verus! {

/// A trie over textual input: a thin wrapper that decomposes string
/// slices into their characters and hands them to a [`Trie`].
///
/// The abstract value `self@` is the set of stored sequences, each the
/// character sequence of one stored string.
pub struct StrTrie(Trie);

impl View for StrTrie {
    type V = Set<Seq<char>>;

    /// The set of stored character sequences.
    closed spec fn view(&self) -> Set<Seq<char>> {
        self.0@
    }
}

impl StrTrie {
    /// The number of stored strings.
    pub closed spec fn spec_len(self) -> nat {
        self.0.spec_len()
    }

    /// The root node of the underlying trie.
    pub closed spec fn spec_root(self) -> TrieNode {
        self.0.spec_root()
    }

    /// Returns a new empty string trie.
    pub fn new() -> (r: Self)
        ensures
            forall|s: Seq<char>| !r@.contains(s),
            r.spec_len() == 0,
    {
        StrTrie(Trie::new())
    }

    /// Returns `true` if the root node has no children, that is, if no
    /// string of positive length is stored.
    pub fn is_empty(&self) -> (r: bool)
        ensures
            r <==> (forall|s: Seq<char>| self@.contains(s) ==> s.len() == 0),
    {
        self.0.is_empty()
    }

    /// Returns the number of strings stored within the trie. The count is
    /// zero exactly when nothing at all is stored.
    pub fn len(&self) -> (r: usize)
        ensures
            r == self.spec_len(),
            (r == 0) <==> (forall|s: Seq<char>| !self@.contains(s)),
    {
        let r = self.0.len();
        proof {
            assert(forall|s: Seq<char>| self@.contains(s) == self.0@.contains(s));
        }
        r
    }

    /// Clears the trie, removing every stored string.
    pub fn clear(&mut self)
        ensures
            forall|s: Seq<char>| !final(self)@.contains(s),
            final(self).spec_len() == 0,
    {
        self.0.clear();
    }

    /// Inserts a string into the trie. Returns `true` iff it was not
    /// stored before; the length grows by one exactly in that case.
    pub fn insert(&mut self, value: &str) -> (is_new: bool)
        requires
            old(self).spec_len() < usize::MAX,
        ensures
            is_new == !old(self)@.contains(value@),
            final(self)@ == old(self)@.insert(value@),
            final(self).spec_len() == old(self).spec_len() + (if is_new {
                1nat
            } else {
                0nat
            }),
    {
        let chars = str_to_chars(value);
        self.0.insert(&chars)
    }

    /// Inserts a sequence of characters into the trie, as `insert` does
    /// for a string.
    pub fn insert_iter(&mut self, chars: Vec<char>) -> (is_new: bool)
        requires
            old(self).spec_len() < usize::MAX,
        ensures
            is_new == !old(self)@.contains(chars@),
            final(self)@ == old(self)@.insert(chars@),
            final(self).spec_len() == old(self).spec_len() + (if is_new {
                1nat
            } else {
                0nat
            }),
    {
        self.0.insert(&chars)
    }

    /// Removes a string from the trie. Returns `true` iff it was stored;
    /// the length shrinks by one exactly in that case.
    pub fn remove(&mut self, value: &str) -> (removed: bool)
        ensures
            removed == old(self)@.contains(value@),
            final(self)@ == old(self)@.remove(value@),
            final(self).spec_len() + (if removed {
                1nat
            } else {
                0nat
            }) == old(self).spec_len(),
    {
        let chars = str_to_chars(value);
        self.0.remove(&chars)
    }

    /// Removes a sequence of characters from the trie, as `remove` does
    /// for a string.
    pub fn remove_iter(&mut self, chars: Vec<char>) -> (removed: bool)
        ensures
            removed == old(self)@.contains(chars@),
            final(self)@ == old(self)@.remove(chars@),
            final(self).spec_len() + (if removed {
                1nat
            } else {
                0nat
            }) == old(self).spec_len(),
    {
        self.0.remove(&chars)
    }

    /// Returns `true` if the trie contains the string.
    pub fn contains(&mut self, value: &str) -> (r: bool)
        ensures
            r == old(self)@.contains(value@),
            *final(self) == *old(self),
    {
        let chars = str_to_chars(value);
        self.0.contains(&chars)
    }

    /// Returns `true` if the trie contains the sequence of characters.
    pub fn contains_iter(&mut self, chars: Vec<char>) -> (r: bool)
        ensures
            r == old(self)@.contains(chars@),
            *final(self) == *old(self),
    {
        self.0.contains(&chars)
    }

    /// Returns an immutable reference to the root node of the trie.
    pub fn root(&self) -> (r: &TrieNode)
        ensures
            *r == self.spec_root(),
            r.wf(),
            r.pruned(),
            r.count_spec() == self.spec_len(),
            forall|s: Seq<char>| r.spec_contains(s) == self@.contains(s),
    {
        self.0.root()
    }
}

} // verus!
