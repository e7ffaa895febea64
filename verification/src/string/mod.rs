pub mod iter;

use vstd::prelude::*;
use vstd::std_specs::iter::IteratorSpec;

use crate::node::TrieNode;
use crate::trie::Trie;
use iter::StringTrieIter;

verus! {

broadcast use vstd::string::axiom_spec_iter, vstd::string::next_postcondition;

/// Collects the characters of a string slice into a vector, in order.
pub(crate) fn str_to_chars(s: &str) -> (r: Vec<char>)
    ensures
        r@ == s@,
{
    let mut it = s.chars();
    let mut r: Vec<char> = Vec::new();
    loop
        invariant
            it.obeys_prophetic_iter_laws(),
            it.decrease() is Some,
            r@ + it.remaining() == s@,
        ensures
            r@ + it.remaining() == s@,
            it.remaining().len() == 0,
        decreases it.decrease()->0,
    {
        match it.next() {
            Some(c) => {
                r.push(c);
                proof {
                    assert(r@ + it.remaining() =~= s@);
                }
            },
            None => {
                break;
            },
        }
    }
    proof {
        assert(r@ + it.remaining() =~= r@);
    }
    r
}

/// Relies on `String`'s `FromIterator` over characters, through
/// `Iterator::collect`: the collected string's characters are exactly the
/// vector's, in order.
#[verifier::external_body]
pub(crate) fn chars_to_string(v: &Vec<char>) -> (r: String)
    ensures
        r@ == v@,
{
    v.iter().collect()
}

/// A trie over textual input: a thin wrapper that decomposes strings into
/// their characters and hands them to a [`Trie`], and recomposes yielded
/// character sequences back into strings.
///
/// The abstract value `self@` is the set of stored sequences, each the
/// character sequence of one stored string.
pub struct StringTrie(Trie);

impl View for StringTrie {
    type V = Set<Seq<char>>;

    /// The set of stored character sequences.
    closed spec fn view(&self) -> Set<Seq<char>> {
        self.0@
    }
}

impl StringTrie {
    /// The number of stored strings.
    pub closed spec fn spec_len(self) -> nat {
        self.0.spec_len()
    }

    /// The root node of the underlying trie.
    pub closed spec fn spec_root(self) -> TrieNode {
        self.0.spec_root()
    }

    /// Returns a new empty string trie.
    pub fn new() -> (r: Self)
        ensures
            forall|s: Seq<char>| !r@.contains(s),
            r.spec_len() == 0,
    {
        StringTrie(Trie::new())
    }

    /// Returns `true` if the root node has no children, that is, if no
    /// string of positive length is stored.
    pub fn is_empty(&self) -> (r: bool)
        ensures
            r <==> (forall|s: Seq<char>| self@.contains(s) ==> s.len() == 0),
    {
        self.0.is_empty()
    }

    /// Returns the number of strings stored within the trie. The count is
    /// zero exactly when nothing at all is stored.
    pub fn len(&self) -> (r: usize)
        ensures
            r == self.spec_len(),
            (r == 0) <==> (forall|s: Seq<char>| !self@.contains(s)),
    {
        let r = self.0.len();
        proof {
            assert(forall|s: Seq<char>| self@.contains(s) == self.0@.contains(s));
        }
        r
    }

    /// Clears the trie, removing every stored string.
    pub fn clear(&mut self)
        ensures
            forall|s: Seq<char>| !final(self)@.contains(s),
            final(self).spec_len() == 0,
    {
        self.0.clear();
    }

    /// Inserts a string into the trie. Returns `true` iff it was not
    /// stored before; the length grows by one exactly in that case.
    pub fn insert(&mut self, value: &str) -> (is_new: bool)
        requires
            old(self).spec_len() < usize::MAX,
        ensures
            is_new == !old(self)@.contains(value@),
            final(self)@ == old(self)@.insert(value@),
            final(self).spec_len() == old(self).spec_len() + (if is_new {
                1nat
            } else {
                0nat
            }),
    {
        let chars = str_to_chars(value);
        self.0.insert(&chars)
    }

    /// Inserts a sequence of characters into the trie, as `insert` does
    /// for a string.
    pub fn insert_iter(&mut self, chars: Vec<char>) -> (is_new: bool)
        requires
            old(self).spec_len() < usize::MAX,
        ensures
            is_new == !old(self)@.contains(chars@),
            final(self)@ == old(self)@.insert(chars@),
            final(self).spec_len() == old(self).spec_len() + (if is_new {
                1nat
            } else {
                0nat
            }),
    {
        self.0.insert(&chars)
    }

    /// Removes a string from the trie. Returns `true` iff it was stored;
    /// the length shrinks by one exactly in that case.
    pub fn remove(&mut self, value: &str) -> (removed: bool)
        ensures
            removed == old(self)@.contains(value@),
            final(self)@ == old(self)@.remove(value@),
            final(self).spec_len() + (if removed {
                1nat
            } else {
                0nat
            }) == old(self).spec_len(),
    {
        let chars = str_to_chars(value);
        self.0.remove(&chars)
    }

    /// Removes a sequence of characters from the trie, as `remove` does
    /// for a string.
    pub fn remove_iter(&mut self, chars: Vec<char>) -> (removed: bool)
        ensures
            removed == old(self)@.contains(chars@),
            final(self)@ == old(self)@.remove(chars@),
            final(self).spec_len() + (if removed {
                1nat
            } else {
                0nat
            }) == old(self).spec_len(),
    {
        self.0.remove(&chars)
    }

    /// Returns `true` if the trie contains the string.
    pub fn contains(&self, value: &str) -> (r: bool)
        ensures
            r == self@.contains(value@),
    {
        let chars = str_to_chars(value);
        self.0.contains(&chars)
    }

    /// Returns `true` if the trie contains the sequence of characters.
    pub fn contains_iter(&self, chars: Vec<char>) -> (r: bool)
        ensures
            r == self@.contains(chars@),
    {
        self.0.contains(&chars)
    }

    /// Returns an immutable reference to the root node of the trie.
    pub fn root(&self) -> (r: &TrieNode)
        ensures
            *r == self.spec_root(),
            r.wf(),
            r.pruned(),
            r.count_spec() == self.spec_len(),
            forall|s: Seq<char>| r.spec_contains(s) == self@.contains(s),
    {
        self.0.root()
    }

    /// Rebuilds a string trie from a root node and a stored-sequence
    /// count, as read back from a persisted representation. Succeeds
    /// exactly when the parts are consistent, as `Trie::from_parts` does.
    pub fn from_parts(root: TrieNode, count: usize) -> (r: Option<StringTrie>)
        ensures
            match r {
                Some(t) => root.wf() && root.pruned() && count as nat == root.count_spec()
                    && t.spec_root() == root && t.spec_len() == count && (forall|s: Seq<char>|
                    t@.contains(s) == root.spec_contains(s)),
                None => !(root.wf() && root.pruned() && count as nat == root.count_spec()),
            },
    {
        match Trie::from_parts(root, count) {
            Some(t) => Some(StringTrie(t)),
            None => None,
        }
    }

    /// Returns an enumerator over the trie. It yields an owned copy of
    /// every stored string of positive length, each exactly once, in an
    /// unspecified order. The empty string, if stored, is not yielded.
    pub fn iter(&self) -> (r: StringTrieIter)
        ensures
            forall|s: Seq<char>| r.remaining().contains(s) <==> (self@.contains(s) && s.len() > 0),
            r.remaining().no_duplicates(),
    {
        let root = self.0.root();
        let r = StringTrieIter::new(root);
        proof {
            assert forall|s: Seq<char>|
                r.remaining().contains(s) <==> (self@.contains(s) && s.len() > 0) by {
                assert(self@.contains(s) == root.spec_contains(s));
            }
        }
        r
    }
}

} // verus!
