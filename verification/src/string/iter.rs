use vstd::prelude::*;

use crate::iter::TrieIter;
use crate::node::TrieNode;
use crate::string::chars_to_string;

verus! {

/// A finite, restartable enumeration of the strings stored in a trie.
///
/// The enumerator takes an owned snapshot of the stored strings when it
/// is created and hands them out one by one; each result is an
/// independently owned `String`. The order of the results carries no
/// meaning. The empty string, if stored, is not enumerated: the walk is
/// seeded with the root's children.
pub struct StringTrieIter {
    /// The snapshot, in the order the walk found the strings.
    items: Vec<String>,
    /// How many results were handed out already.
    pos: usize,
}

impl StringTrieIter {
    #[verifier::type_invariant]
    spec fn inv(self) -> bool {
        self.pos <= self.items@.len()
    }

    /// The character sequences of the results not yet handed out, in
    /// order.
    pub closed spec fn remaining(self) -> Seq<Seq<char>> {
        self.items@.subrange(self.pos as int, self.items@.len() as int).map_values(
            |s: String| s@,
        )
    }

    /// Creates an enumerator over the subtree rooted at `root`: it will
    /// yield exactly the stored sequences of positive length, each once,
    /// recomposed into strings.
    pub fn new(root: &TrieNode) -> (r: StringTrieIter)
        requires
            root.wf(),
        ensures
            forall|s: Seq<char>|
                r.remaining().contains(s) <==> (root.spec_contains(s) && s.len() > 0),
            r.remaining().no_duplicates(),
    {
        let mut it = TrieIter::new(root);
        let ghost all = it.remaining();
        let mut items: Vec<String> = Vec::new();
        let mut done = false;
        while !done
            invariant
                items@.map_values(|s: String| s@) + it.remaining() == all,
                done ==> it.remaining().len() == 0,
            decreases it.remaining().len() + (if done {
                0int
            } else {
                1int
            }),
        {
            match it.next() {
                Some(v) => {
                    let s = chars_to_string(&v);
                    items.push(s);
                    proof {
                        assert(items@.map_values(|s: String| s@) =~= items@.drop_last().map_values(
                            |s: String| s@,
                        ).push(items@.last()@));
                        assert(items@.map_values(|s: String| s@) + it.remaining() =~= all);
                    }
                },
                None => {
                    done = true;
                },
            }
        }
        let r = StringTrieIter { items, pos: 0 };
        proof {
            assert(r.items@.subrange(0, r.items@.len() as int) =~= r.items@);
            assert(r.remaining() =~= items@.map_values(|s: String| s@) + it.remaining());
        }
        r
    }

    /// Hands out the next result: an owned copy of one stored string, or
    /// nothing once the enumeration is finished.
    pub fn next(&mut self) -> (r: Option<String>)
        ensures
            old(self).remaining().len() == 0 ==> r is None && final(self).remaining() == old(self).remaining(),
            old(self).remaining().len() > 0 ==> (r matches Some(v) && v@ == old(self).remaining()[0])
                && final(self).remaining() == old(self).remaining().drop_first(),
    {
        proof {
            use_type_invariant(&*self);
        }
        if self.pos < self.items.len() {
            let v = self.items[self.pos].clone();
            let ghost pre = *self;
            self.pos = self.pos + 1;
            proof {
                assert(self.remaining() =~= pre.remaining().drop_first());
            }
            Some(v)
        } else {
            proof {
                assert(self.remaining().len() == 0);
            }
            None
        }
    }
}

} // verus!
