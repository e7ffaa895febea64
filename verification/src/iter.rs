use vstd::prelude::*;

use crate::node::TrieNode;

verus! {

/// Copies a sequence of symbols into a fresh, independently owned vector.
fn clone_chars(v: &Vec<char>) -> (r: Vec<char>)
    ensures
        r@ == v@,
{
    let n = v.len();
    let mut r: Vec<char> = Vec::new();
    let mut i: usize = 0;
    while i < n
        invariant
            n == v@.len(),
            i <= n,
            r@ == v@.take(i as int),
        decreases n - i,
    {
        r.push(v[i]);
        proof {
            assert(v@.take(i as int + 1) =~= v@.take(i as int).push(v@[i as int]));
        }
        i += 1;
    }
    proof {
        assert(v@.take(n as int) =~= v@);
    }
    r
}

/// Prepending one symbol to a sequence can be undone, so it maps distinct
/// sequences to distinct sequences.
proof fn lemma_prepend_undone(c: char, a: Seq<char>)
    ensures
        (seq![c] + a).drop_first() == a,
        (seq![c] + a)[0] == c,
        (seq![c] + a).len() == a.len() + 1,
{
    assert((seq![c] + a).drop_first() =~= a);
}

/// Appends to `out` one owned copy of `prefix + t` for every sequence `t`
/// stored in the subtree rooted at `node`, the empty suffix included when
/// the node itself is terminal. Everything already in `out` is left
/// untouched. The suffixes walked, in order, are returned as a ghost
/// sequence: they are exactly the stored sequences, without repetition.
fn collect_rec(node: &TrieNode, prefix: &mut Vec<char>, out: &mut Vec<Vec<char>>) -> (w: Ghost<
    Seq<Seq<char>>,
>)
    requires
        node.wf(),
    ensures
        final(prefix)@ == old(prefix)@,
        final(out)@.len() == old(out)@.len() + w@.len(),
        forall|k: int| 0 <= k < old(out)@.len() ==> final(out)@[k] == old(out)@[k],
        forall|k: int|
            0 <= k < w@.len() ==> node.spec_contains(#[trigger] w@[k])
                && final(out)@[old(out)@.len() + k]@ == old(prefix)@ + w@[k],
        forall|t: Seq<char>| node.spec_contains(t) ==> w@.contains(t),
        w@.no_duplicates(),
    decreases *node, 1int,
{
    let ghost p0 = prefix@;
    let ghost base = out@.len() as int;
    let terminal = node.is_end_of_word();
    if terminal {
        let copy = clone_chars(prefix);
        out.push(copy);
        proof {
            assert(out@[base]@ == p0 + Seq::<char>::empty()) by {
                assert(p0 + Seq::<char>::empty() =~= p0);
            }
        }
    }
    let ghost mid = out@;
    let Ghost(wc) = collect_children(node, prefix, out);
    let ghost w = if terminal {
        seq![Seq::<char>::empty()] + wc
    } else {
        wc
    };
    proof {
        if terminal {
            assert(out@[base] == mid[base]);
            assert(node.spec_contains(Seq::<char>::empty()));
            assert(w.drop_first() =~= wc);
            assert forall|k: int|
                0 <= k < w.len() implies node.spec_contains(#[trigger] w[k]) && out@[base + k]@
                == p0 + w[k] by {
                if k > 0 {
                    assert(w[k] == wc[k - 1]);
                }
            }
            assert forall|t: Seq<char>| node.spec_contains(t) implies w.contains(t) by {
                if t.len() == 0 {
                    assert(w[0] == t);
                } else {
                    let k = choose|k: int| 0 <= k < wc.len() && wc[k] == t;
                    assert(w[k + 1] == t);
                }
            }
            assert forall|k1: int, k2: int|
                0 <= k1 < k2 < w.len() implies w[k1] != w[k2] by {
                if k1 == 0 {
                    assert(w[k2].len() > 0);
                } else {
                    assert(w[k1] == wc[k1 - 1] && w[k2] == wc[k2 - 1]);
                }
            }
            assert(w.no_duplicates());
        } else {
            assert forall|t: Seq<char>| node.spec_contains(t) implies w.contains(t) by {
                if t.len() == 0 {
                    assert(false);
                }
            }
        }
    }
    Ghost(w)
}

/// Appends to `out` one owned copy of `prefix + t` for every sequence `t`
/// of positive length stored in the subtree rooted at `node`, walking the
/// children one by one. The suffixes walked are returned as a ghost
/// sequence, as for `collect_rec`, and all have positive length.
fn collect_children(node: &TrieNode, prefix: &mut Vec<char>, out: &mut Vec<Vec<char>>) -> (w: Ghost<
    Seq<Seq<char>>,
>)
    requires
        node.wf(),
    ensures
        final(prefix)@ == old(prefix)@,
        final(out)@.len() == old(out)@.len() + w@.len(),
        forall|k: int| 0 <= k < old(out)@.len() ==> final(out)@[k] == old(out)@[k],
        forall|k: int|
            0 <= k < w@.len() ==> node.spec_contains(#[trigger] w@[k]) && w@[k].len() > 0
                && final(out)@[old(out)@.len() + k]@ == old(prefix)@ + w@[k],
        forall|t: Seq<char>| node.spec_contains(t) && t.len() > 0 ==> w@.contains(t),
        w@.no_duplicates(),
    decreases *node, 0int,
{
    let ghost p0 = prefix@;
    let ghost base = out@.len() as int;
    let n = node.len();
    let mut i: usize = 0;
    let ghost mut ws: Seq<Seq<char>> = Seq::empty();
    let ghost mut js: Seq<int> = Seq::empty();
    while i < n
        invariant
            n == node.children@.len(),
            i <= n,
            node.wf(),
            prefix@ == p0,
            out@.len() == base + ws.len(),
            base >= 0,
            js.len() == ws.len(),
            forall|k: int| 0 <= k < base ==> out@[k] == old(out)@[k],
            forall|k: int|
                0 <= k < ws.len() ==> node.spec_contains(#[trigger] ws[k]) && ws[k].len() > 0
                    && out@[base + k]@ == p0 + ws[k],
            forall|k: int|
                0 <= k < js.len() ==> 0 <= #[trigger] js[k] < i && ws[k][0] == node.children@[
                    js[k]
                ].0,
            forall|j: int, t: Seq<char>|
                0 <= j < i && #[trigger] node.children@[j].1.spec_contains(t) ==> ws.contains(
                    seq![node.children@[j].0] + t,
                ),
            ws.no_duplicates(),
        decreases n - i,
    {
        let ghost pre = out@;
        let ghost wpre = ws;
        let ghost jpre = js;
        let ghost ci = node.children@[i as int].0;
        let c = node.children[i].0;
        prefix.push(c);
        let Ghost(wr) = collect_rec(&node.children[i].1, prefix, out);
        prefix.pop();
        proof {
            assert(prefix@ =~= p0);
            node.lemma_key_index(i as int);
            let batch = Seq::new(wr.len(), |k: int| seq![ci] + wr[k]);
            ws = wpre + batch;
            js = jpre + Seq::new(wr.len(), |k: int| i as int);
            assert(p0.push(ci) =~= p0 + seq![ci]);
            // each copy appended for child i is a stored sequence of the node
            assert forall|k: int|
                0 <= k < ws.len() implies node.spec_contains(#[trigger] ws[k]) && ws[k].len() > 0
                    && out@[base + k]@ == p0 + ws[k] by {
                if k < wpre.len() {
                    assert(ws[k] == wpre[k]);
                    assert(out@[base + k] == pre[base + k]);
                } else {
                    let kb = k - wpre.len();
                    assert(ws[k] == seq![ci] + wr[kb]);
                    lemma_prepend_undone(ci, wr[kb]);
                    assert(node.spec_contains(ws[k]));
                    assert(out@[base + k]@ == (p0 + seq![ci]) + wr[kb]);
                    assert((p0 + seq![ci]) + wr[kb] =~= p0 + (seq![ci] + wr[kb]));
                }
            }
            // bookkeeping: which child each suffix came from
            assert forall|k: int|
                0 <= k < js.len() implies 0 <= #[trigger] js[k] < i + 1 && ws[k][0]
                    == node.children@[js[k]].0 by {
                if k < jpre.len() {
                    assert(js[k] == jpre[k] && ws[k] == wpre[k]);
                } else {
                    let kb = k - wpre.len();
                    assert(js[k] == i as int);
                    assert(ws[k] == seq![ci] + wr[kb]);
                    lemma_prepend_undone(ci, wr[kb]);
                }
            }
            // everything stored under a child seen so far was walked
            assert forall|j: int, t: Seq<char>|
                0 <= j < i + 1 && #[trigger] node.children@[j].1.spec_contains(t) implies
                ws.contains(seq![node.children@[j].0] + t) by {
                if j == i as int {
                    let k = choose|k: int| 0 <= k < wr.len() && wr[k] == t;
                    assert(ws[wpre.len() + k] == seq![ci] + t);
                } else {
                    let x = seq![node.children@[j].0] + t;
                    let k = choose|k: int| 0 <= k < wpre.len() && wpre[k] == x;
                    assert(ws[k] == x);
                }
            }
            // no suffix is walked twice
            assert forall|k1: int, k2: int|
                0 <= k1 < k2 < ws.len() implies ws[k1] != ws[k2] by {
                if k1 < wpre.len() && k2 >= wpre.len() {
                    let kb = k2 - wpre.len();
                    assert(ws[k2] == seq![ci] + wr[kb]);
                    lemma_prepend_undone(ci, wr[kb]);
                    assert(ws[k2][0] == ci);
                    assert(ws[k1][0] == node.children@[jpre[k1]].0);
                    assert(node.children@[jpre[k1]].0 != ci);
                } else if k1 >= wpre.len() {
                    let kb1 = k1 - wpre.len();
                    let kb2 = k2 - wpre.len();
                    assert(ws[k1] == seq![ci] + wr[kb1]);
                    assert(ws[k2] == seq![ci] + wr[kb2]);
                    assert(wr[kb1] != wr[kb2]);
                    lemma_prepend_undone(ci, wr[kb1]);
                    lemma_prepend_undone(ci, wr[kb2]);
                    if ws[k1] == ws[k2] {
                        assert(wr[kb1] == wr[kb2]);
                    }
                }
            }
            assert(ws.no_duplicates());
        }
        i += 1;
    }
    proof {
        // everything stored here with positive length was walked
        assert forall|t: Seq<char>|
            node.spec_contains(t) && t.len() > 0 implies ws.contains(t) by {
            let j = node.key_index(t[0]);
            assert(node.children@[j].1.spec_contains(t.drop_first()));
            assert(ws.contains(seq![node.children@[j].0] + t.drop_first()));
            assert(seq![t[0]] + t.drop_first() =~= t);
        }
    }
    Ghost(ws)
}

/// A finite, restartable enumeration of the sequences stored in a trie.
///
/// The enumerator takes an owned snapshot of the stored sequences when it
/// is created and hands them out one by one; each result is an
/// independently owned copy. The order of the results carries no meaning.
/// The empty sequence, if stored, is not enumerated: the walk is seeded
/// with the root's children.
pub struct TrieIter {
    /// The snapshot, in the order the walk found the sequences.
    items: Vec<Vec<char>>,
    /// How many results were handed out already.
    pos: usize,
}

impl TrieIter {
    #[verifier::type_invariant]
    spec fn inv(self) -> bool {
        self.pos <= self.items@.len()
    }

    /// The results not yet handed out, in order.
    pub closed spec fn remaining(self) -> Seq<Seq<char>> {
        self.items@.subrange(self.pos as int, self.items@.len() as int).map_values(
            |v: Vec<char>| v@,
        )
    }

    /// Creates an enumerator over the subtree rooted at `root`: it will
    /// yield exactly the stored sequences of positive length, each once.
    pub fn new(root: &TrieNode) -> (r: TrieIter)
        requires
            root.wf(),
        ensures
            forall|s: Seq<char>|
                r.remaining().contains(s) <==> (root.spec_contains(s) && s.len() > 0),
            r.remaining().no_duplicates(),
    {
        let mut out: Vec<Vec<char>> = Vec::new();
        let mut prefix: Vec<char> = Vec::new();
        let Ghost(w) = collect_children(root, &mut prefix, &mut out);
        let r = TrieIter { items: out, pos: 0 };
        proof {
            assert(r.items@.subrange(0, r.items@.len() as int) =~= r.items@);
            let rem = r.remaining();
            assert forall|k: int| 0 <= k < rem.len() implies rem[k] == w[k] by {
                assert(rem[k] == r.items@[k]@);
                assert(r.items@[k]@ == Seq::<char>::empty() + w[k]);
                assert(Seq::<char>::empty() + w[k] =~= w[k]);
            }
            assert(rem =~= w);
        }
        r
    }

    /// Hands out the next result: an owned copy of one stored sequence,
    /// or nothing once the enumeration is finished.
    pub fn next(&mut self) -> (r: Option<Vec<char>>)
        ensures
            old(self).remaining().len() == 0 ==> r is None && final(self).remaining() == old(self).remaining(),
            old(self).remaining().len() > 0 ==> (r matches Some(v) && v@ == old(self).remaining()[0])
                && final(self).remaining() == old(self).remaining().drop_first(),
    {
        proof {
            use_type_invariant(&*self);
        }
        if self.pos < self.items.len() {
            let v = clone_chars(&self.items[self.pos]);
            let ghost pre = *self;
            self.pos = self.pos + 1;
            proof {
                assert(self.remaining() =~= pre.remaining().drop_first());
            }
            Some(v)
        } else {
            proof {
                assert(self.remaining().len() == 0);
            }
            None
        }
    }
}

} // verus!
