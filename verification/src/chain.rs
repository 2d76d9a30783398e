//! The chain: a list is a doubly-linked sequence of nodes, each owning one
//! packed block, under a head record that caches the end keys and the totals.
//! `chain_view` flattens a chain into the logical sequence of its elements;
//! the well-formedness predicates state the doubly-linked consistency that
//! every operation preserves.
use vstd::prelude::*;
use crate::block::PackedBlock;

verus! {

/// One link of a chain. `left`/`right` name the sibling node keys (`None`
/// marks a chain end); `element_count` caches the owned block's length.
pub struct ListNode {
    pub key: u64,
    pub left: Option<u64>,
    pub right: Option<u64>,
    pub element_count: u32,
    pub block: PackedBlock,
}

/// A node's cached count matches its block, and the block is never empty:
/// an emptied node is spliced out in the same step that emptied it.
pub open spec fn wf_node(n: ListNode) -> bool {
    &&& n.element_count as nat == n.block@.len()
    &&& n.block@.len() > 0
}

/// Per-list metadata: keys of the two end nodes, total element count across
/// all nodes, and the node count.
pub struct ListHead {
    pub left: Option<u64>,
    pub right: Option<u64>,
    pub element_count: u32,
    pub node_count: u32,
}

/// One whole list: its external key, its head record, and its chain of
/// nodes in head-to-tail order.
pub struct ListRecord {
    pub key: Vec<u8>,
    pub head: ListHead,
    pub nodes: Vec<ListNode>,
}

/// The logical contents of a chain: its blocks, flattened in order.
pub open spec fn chain_view(ns: Seq<ListNode>) -> Seq<Seq<u8>>
    decreases ns.len(),
{
    if ns.len() == 0 {
        Seq::empty()
    } else {
        ns[0].block@ + chain_view(ns.drop_first())
    }
}

/// Doubly-linked consistency: every node's `left`/`right` names exactly its
/// neighbour in the chain, and the two ends carry `None`.
pub open spec fn linked(ns: Seq<ListNode>) -> bool {
    forall|i: int|
        0 <= i < ns.len() ==> {
            &&& (#[trigger] ns[i]).left == (if i == 0 {
                None::<u64>
            } else {
                Some(ns[i - 1].key)
            })
            &&& ns[i].right == (if i == ns.len() - 1 {
                None::<u64>
            } else {
                Some(ns[i + 1].key)
            })
        }
}

/// The head's end pointers name the first and last node (none iff empty).
pub open spec fn ends_ok(head: ListHead, ns: Seq<ListNode>) -> bool {
    if ns.len() == 0 {
        head.left == None::<u64> && head.right == None::<u64>
    } else {
        head.left == Some(ns[0].key) && head.right == Some(ns.last().key)
    }
}

/// A stored list is never empty, its nodes are well formed and doubly
/// linked, and the head's cached totals are exact.
pub open spec fn wf_record(r: ListRecord) -> bool {
    &&& r.nodes@.len() > 0
    &&& (forall|i: int| 0 <= i < r.nodes@.len() ==> wf_node(#[trigger] r.nodes@[i]))
    &&& linked(r.nodes@)
    &&& ends_ok(r.head, r.nodes@)
    &&& r.head.node_count as nat == r.nodes@.len()
    &&& r.head.element_count as nat == chain_view(r.nodes@).len()
}

pub proof fn lemma_chain_view_concat(a: Seq<ListNode>, b: Seq<ListNode>)
    ensures
        chain_view(a + b) == chain_view(a) + chain_view(b),
    decreases a.len(),
{
    if a.len() == 0 {
        assert(a + b =~= b);
        assert(chain_view(a) + chain_view(b) =~= chain_view(b));
    } else {
        assert((a + b).drop_first() =~= a.drop_first() + b);
        assert((a + b)[0] == a[0]);
        lemma_chain_view_concat(a.drop_first(), b);
        assert(a[0].block@ + (chain_view(a.drop_first()) + chain_view(b)) =~= (a[0].block@
            + chain_view(a.drop_first())) + chain_view(b));
    }
}

pub proof fn lemma_chain_view_split(ns: Seq<ListNode>, i: int)
    requires
        0 <= i <= ns.len(),
    ensures
        chain_view(ns) == chain_view(ns.take(i)) + chain_view(ns.skip(i)),
{
    assert(ns.take(i) + ns.skip(i) =~= ns);
    lemma_chain_view_concat(ns.take(i), ns.skip(i));
}

pub proof fn lemma_chain_view_singleton(n: ListNode)
    ensures
        chain_view(seq![n]) == n.block@,
{
    assert(seq![n].drop_first() =~= Seq::<ListNode>::empty());
    assert(n.block@ + chain_view(Seq::<ListNode>::empty()) =~= n.block@);
}

pub proof fn lemma_chain_view_skip_unfold(ns: Seq<ListNode>, i: int)
    requires
        0 <= i < ns.len(),
    ensures
        chain_view(ns.skip(i)) == ns[i].block@ + chain_view(ns.skip(i + 1)),
{
    assert(ns.skip(i)[0] == ns[i]);
    assert(ns.skip(i).drop_first() =~= ns.skip(i + 1));
}

/// A chain's view depends on its blocks alone, not on keys or pointers.
pub proof fn lemma_chain_view_blocks(a: Seq<ListNode>, b: Seq<ListNode>)
    requires
        a.len() == b.len(),
        forall|i: int| 0 <= i < a.len() ==> a[i].block@ == b[i].block@,
    ensures
        chain_view(a) == chain_view(b),
    decreases a.len(),
{
    if a.len() != 0 {
        assert(forall|i: int|
            0 <= i < a.drop_first().len() ==> a.drop_first()[i].block@ == b.drop_first()[i].block@);
        lemma_chain_view_blocks(a.drop_first(), b.drop_first());
        assert(a[0].block@ == b[0].block@);
    }
}

/// Every node holds at least one element, so a chain never has more nodes
/// than elements.
pub proof fn lemma_chain_view_len_ge(ns: Seq<ListNode>)
    requires
        forall|i: int| 0 <= i < ns.len() ==> wf_node(#[trigger] ns[i]),
    ensures
        chain_view(ns).len() >= ns.len(),
    decreases ns.len(),
{
    if ns.len() != 0 {
        assert(forall|i: int|
            0 <= i < ns.drop_first().len() ==> wf_node(#[trigger] ns.drop_first()[i]));
        lemma_chain_view_len_ge(ns.drop_first());
        assert(wf_node(ns[0]));
    }
}

/// Two chains that carry the same blocks and cached counts position by
/// position, whatever their keys and pointers.
pub open spec fn blocks_eq(a: Seq<ListNode>, b: Seq<ListNode>) -> bool {
    &&& a.len() == b.len()
    &&& (forall|t: int|
        0 <= t < a.len() ==> (#[trigger] a[t]).block == b[t].block && a[t].element_count
            == b[t].element_count)
}

pub proof fn lemma_blocks_eq_view(a: Seq<ListNode>, b: Seq<ListNode>)
    requires
        blocks_eq(a, b),
    ensures
        chain_view(a) == chain_view(b),
{
    assert(forall|t: int| 0 <= t < a.len() ==> (#[trigger] a[t]).block@ == b[t].block@);
    lemma_chain_view_blocks(a, b);
}

/// Matching prefixes of block-equal chains are block-equal.
pub proof fn lemma_blocks_eq_prefix(a: Seq<ListNode>, b: Seq<ListNode>, m: int)
    requires
        blocks_eq(a, b),
        0 <= m <= a.len(),
    ensures
        blocks_eq(a.take(m), b.take(m)),
{
    assert forall|t: int|
        0 <= t < m implies (#[trigger] a.take(m)[t]).block == b.take(m)[t].block && a.take(
        m,
    )[t].element_count == b.take(m)[t].element_count by {
        assert(a.take(m)[t] == a[t]);
        assert(b.take(m)[t] == b[t]);
    }
}

/// Block-equality is transitive.
pub proof fn lemma_blocks_eq_trans(a: Seq<ListNode>, b: Seq<ListNode>, c: Seq<ListNode>)
    requires
        blocks_eq(a, b),
        blocks_eq(b, c),
    ensures
        blocks_eq(a, c),
{
}

/// Dropping the last node of two block-equal chains keeps them block-equal:
/// used when a tail-to-head scan advances one node.
pub proof fn lemma_blocks_eq_front(p: Seq<ListNode>, o: Seq<ListNode>, x: Seq<ListNode>)
    requires
        blocks_eq(p, o),
        p.len() > 0,
        blocks_eq(x, p.drop_last()),
    ensures
        blocks_eq(x, o.drop_last()),
{
    assert forall|t: int|
        0 <= t < x.len() implies (#[trigger] x[t]).block == o.drop_last()[t].block
        && x[t].element_count == o.drop_last()[t].element_count by {
        assert(x[t].block == p.drop_last()[t].block);
        assert(x[t].element_count == p.drop_last()[t].element_count);
        assert(p.drop_last()[t] == p[t]);
        assert(o.drop_last()[t] == o[t]);
    }
}

/// Stepping past the first node of two block-equal chains keeps them
/// block-equal: used when a scan advances one node.
pub proof fn lemma_blocks_eq_tail(p: Seq<ListNode>, o: Seq<ListNode>, x: Seq<ListNode>)
    requires
        blocks_eq(p, o),
        p.len() > 0,
        blocks_eq(x, p.drop_first()),
    ensures
        blocks_eq(x, o.drop_first()),
{
    assert forall|t: int|
        0 <= t < x.len() implies (#[trigger] x[t]).block == o.drop_first()[t].block
        && x[t].element_count == o.drop_first()[t].element_count by {
        assert(x[t].block == p.drop_first()[t].block);
        assert(x[t].element_count == p.drop_first()[t].element_count);
        assert(p.drop_first()[t] == p[t + 1]);
        assert(p[t + 1].block == o[t + 1].block);
        assert(p[t + 1].element_count == o[t + 1].element_count);
        assert(o.drop_first()[t] == o[t + 1]);
    }
}

/// Inserting into one node's block inserts at the matching position of the
/// flattened view.
#[verifier::rlimit(100)]
pub proof fn lemma_chain_view_block_insert(
    ns: Seq<ListNode>,
    ns2: Seq<ListNode>,
    i: int,
    li: int,
    v: Seq<u8>,
)
    requires
        0 <= i < ns.len(),
        0 <= li <= ns[i].block@.len(),
        ns2.len() == ns.len(),
        forall|q: int| 0 <= q < ns.len() && q != i ==> ns2[q] == ns[q],
        ns2[i].block@ == ns[i].block@.insert(li, v),
    ensures
        chain_view(ns2) == chain_view(ns).insert(chain_view(ns.take(i)).len() + li, v),
{
    lemma_chain_view_split(ns, i);
    lemma_chain_view_skip_unfold(ns, i);
    lemma_chain_view_split(ns2, i);
    lemma_chain_view_skip_unfold(ns2, i);
    assert(ns2.take(i) =~= ns.take(i));
    assert(ns2.skip(i + 1) =~= ns.skip(i + 1));
    assert(chain_view(ns2) =~= chain_view(ns).insert(chain_view(ns.take(i)).len() + li, v));
}

/// Overwriting one element of one node's block updates the matching
/// position of the flattened view.
#[verifier::rlimit(100)]
pub proof fn lemma_chain_view_block_update(
    ns: Seq<ListNode>,
    ns2: Seq<ListNode>,
    i: int,
    li: int,
    v: Seq<u8>,
)
    requires
        0 <= i < ns.len(),
        0 <= li < ns[i].block@.len(),
        ns2.len() == ns.len(),
        forall|q: int| 0 <= q < ns.len() && q != i ==> ns2[q] == ns[q],
        ns2[i].block@ == ns[i].block@.update(li, v),
    ensures
        chain_view(ns2) == chain_view(ns).update(chain_view(ns.take(i)).len() + li, v),
{
    lemma_chain_view_split(ns, i);
    lemma_chain_view_skip_unfold(ns, i);
    lemma_chain_view_split(ns2, i);
    lemma_chain_view_skip_unfold(ns2, i);
    assert(ns2.take(i) =~= ns.take(i));
    assert(ns2.skip(i + 1) =~= ns.skip(i + 1));
    assert(chain_view(ns2) =~= chain_view(ns).update(chain_view(ns.take(i)).len() + li, v));
}

/// Replacing one node's block and count, keys and pointers untouched,
/// keeps the chain doubly linked and its ends in place.
pub proof fn lemma_linked_update_same(ns: Seq<ListNode>, ns2: Seq<ListNode>, i: int)
    requires
        linked(ns),
        0 <= i < ns.len(),
        ns2.len() == ns.len(),
        forall|j: int| 0 <= j < ns.len() && j != i ==> ns2[j] == ns[j],
        ns2[i].key == ns[i].key,
        ns2[i].left == ns[i].left,
        ns2[i].right == ns[i].right,
    ensures
        linked(ns2),
        ns2[0].key == ns[0].key,
        ns2.last().key == ns.last().key,
{
    assert forall|p: int|
        0 <= p < ns2.len() implies {
            &&& (#[trigger] ns2[p]).left == (if p == 0 {
                None::<u64>
            } else {
                Some(ns2[p - 1].key)
            })
            &&& ns2[p].right == (if p == ns2.len() - 1 {
                None::<u64>
            } else {
                Some(ns2[p + 1].key)
            })
        } by {
        assert(ns2[p].key == ns[p].key && ns2[p].left == ns[p].left && ns2[p].right == ns[p].right);
        if p > 0 {
            assert(ns2[p - 1].key == ns[p - 1].key);
        }
        if p < ns2.len() - 1 {
            assert(ns2[p + 1].key == ns[p + 1].key);
        }
    }
}

/// What the splice surgery leaves behind: given the element-by-element
/// relation between the old chain and the new one (node `i` gone, its two
/// neighbours' pointers rewired), the new chain is well formed and its view
/// is the old view with node `i`'s block cut out.
#[verifier::rlimit(100)]
proof fn lemma_splice_props(orig: Seq<ListNode>, ns2: Seq<ListNode>, i: int)
    requires
        orig.len() >= 2,
        0 <= i < orig.len(),
        linked(orig),
        forall|j: int| 0 <= j < orig.len() && j != i ==> wf_node(#[trigger] orig[j]),
        ns2.len() == orig.len() - 1,
        forall|j: int| 0 <= j < i - 1 ==> #[trigger] ns2[j] == orig[j],
        forall|j: int| i + 1 <= j < ns2.len() ==> #[trigger] ns2[j] == orig[j + 1],
        i - 1 >= 0 ==> ns2[i - 1].key == orig[i - 1].key && ns2[i - 1].left == orig[i - 1].left
            && ns2[i - 1].block == orig[i - 1].block && ns2[i - 1].element_count == orig[i
            - 1].element_count && ns2[i - 1].right == orig[i].right,
        i < ns2.len() ==> ns2[i].key == orig[i + 1].key && ns2[i].right == orig[i + 1].right
            && ns2[i].block == orig[i + 1].block && ns2[i].element_count == orig[i
            + 1].element_count && ns2[i].left == orig[i].left,
    ensures
        chain_view(ns2) == chain_view(orig.take(i)) + chain_view(orig.skip(i + 1)),
        linked(ns2),
        forall|j: int| 0 <= j < ns2.len() ==> wf_node(#[trigger] ns2[j]),
        ns2[0].key == (if i == 0 {
            orig[1].key
        } else {
            orig[0].key
        }),
        ns2.last().key == (if i == orig.len() - 1 {
            orig[orig.len() - 2].key
        } else {
            orig[orig.len() - 1].key
        }),
{
    let rm = orig.remove(i);
    assert forall|j: int| 0 <= j < ns2.len() implies (#[trigger] ns2[j]).block@ == rm[j].block@
        && wf_node(ns2[j]) by {
        if j < i {
            assert(rm[j] == orig[j]);
            assert(wf_node(orig[j]));
        } else {
            assert(rm[j] == orig[j + 1]);
            assert(wf_node(orig[j + 1]));
        }
    }
    lemma_chain_view_blocks(ns2, rm);
    assert(rm =~= orig.take(i) + orig.skip(i + 1));
    lemma_chain_view_concat(orig.take(i), orig.skip(i + 1));
    assert forall|j: int|
        0 <= j < ns2.len() implies {
            &&& (#[trigger] ns2[j]).left == (if j == 0 {
                None::<u64>
            } else {
                Some(ns2[j - 1].key)
            })
            &&& ns2[j].right == (if j == ns2.len() - 1 {
                None::<u64>
            } else {
                Some(ns2[j + 1].key)
            })
        } by {
        if j < i - 1 {
            assert(ns2[j] == orig[j]);
        } else if j == i - 1 {
            if j > 0 {
                assert(ns2[j - 1] == orig[j - 1]);
            }
        } else if j == i {
            if j > 0 && j - 1 == i - 1 {
            }
        } else {
            assert(ns2[j] == orig[j + 1]);
        }
    }
}

/// Max elements per packed block before a push opens a new end node, so that
/// positional work inside one node stays bounded.
pub const BLOCK_CAPACITY: usize = 32;

impl ListRecord {
    /// Prepend an element: into the head node's block while it has room,
    /// else as a freshly keyed node spliced in at the head end.
    #[verifier::rlimit(100)]
    #[verifier::spinoff_prover]
    pub fn push_front(&mut self, value: Vec<u8>, fresh: u64)
        requires
            wf_record(*old(self)),
            chain_view(old(self).nodes@).len() < u32::MAX,
        ensures
            wf_record(*final(self)),
            final(self).key == old(self).key,
            chain_view(final(self).nodes@) == seq![value@] + chain_view(old(self).nodes@),
            final(self).head.element_count == old(self).head.element_count + 1,
    {
        let ghost onodes = self.nodes@;
        proof {
            lemma_chain_view_len_ge(onodes);
        }
        let room = self.nodes[0].block.len() < BLOCK_CAPACITY;
        if room {
            let mut f = self.nodes.remove(0);
            f.block.push_left(value);
            f.element_count = f.element_count + 1;
            let ghost f2 = f;
            self.nodes.insert(0, f);
            proof {
                let ns2 = self.nodes@;
                assert(ns2 =~= onodes.update(0, f2));
                assert(ns2.drop_first() =~= onodes.drop_first());
                assert(chain_view(ns2) == f2.block@ + chain_view(onodes.drop_first()));
                assert(chain_view(onodes) == onodes[0].block@ + chain_view(onodes.drop_first()));
                assert(chain_view(ns2) =~= seq![value@] + chain_view(onodes));
                assert(linked(ns2)) by {
                    assert forall|p: int|
                        0 <= p < ns2.len() implies {
                            &&& (#[trigger] ns2[p]).left == (if p == 0 {
                                None::<u64>
                            } else {
                                Some(ns2[p - 1].key)
                            })
                            &&& ns2[p].right == (if p == ns2.len() - 1 {
                                None::<u64>
                            } else {
                                Some(ns2[p + 1].key)
                            })
                        } by {
                        assert(ns2[p].key == onodes[p].key && ns2[p].left == onodes[p].left
                            && ns2[p].right == onodes[p].right);
                        if p > 0 {
                            assert(ns2[p - 1].key == onodes[p - 1].key);
                        }
                        if p < ns2.len() - 1 {
                            assert(ns2[p + 1].key == onodes[p + 1].key);
                        }
                    }
                }
                assert(ends_ok(self.head, ns2)) by {
                    assert(ns2[0].key == onodes[0].key);
                    assert(ns2.last().key == onodes.last().key);
                }
            }
        } else {
            let mut f = self.nodes.remove(0);
            let node = ListNode {
                key: fresh,
                left: None,
                right: Some(f.key),
                element_count: 1,
                block: PackedBlock::singleton(value),
            };
            let ghost gn = node;
            f.left = Some(fresh);
            let ghost f2 = f;
            self.nodes.insert(0, f);
            self.nodes.insert(0, node);
            self.head.left = Some(fresh);
            self.head.node_count = self.head.node_count + 1;
            proof {
                let ns2 = self.nodes@;
                assert(ns2 =~= seq![gn] + onodes.update(0, f2));
                lemma_chain_view_concat(seq![gn], onodes.update(0, f2));
                lemma_chain_view_singleton(gn);
                lemma_chain_view_blocks(onodes.update(0, f2), onodes);
                assert(chain_view(ns2) =~= seq![value@] + chain_view(onodes));
                assert(linked(ns2)) by {
                    assert forall|p: int|
                        0 <= p < ns2.len() implies {
                            &&& (#[trigger] ns2[p]).left == (if p == 0 {
                                None::<u64>
                            } else {
                                Some(ns2[p - 1].key)
                            })
                            &&& ns2[p].right == (if p == ns2.len() - 1 {
                                None::<u64>
                            } else {
                                Some(ns2[p + 1].key)
                            })
                        } by {
                        if p == 0 {
                            assert(ns2[1].key == f2.key);
                        } else if p == 1 {
                            assert(ns2[p].left == Some(gn.key) && ns2[p].key == onodes[0].key
                                && ns2[p].right == onodes[0].right);
                            if p < ns2.len() - 1 {
                                assert(ns2[p + 1] == onodes[1]);
                            }
                        } else {
                            assert(ns2[p] == onodes[p - 1]);
                            if p == 2 {
                                assert(ns2[p - 1].key == onodes[0].key);
                            } else {
                                assert(ns2[p - 1] == onodes[p - 2]);
                            }
                            if p < ns2.len() - 1 {
                                assert(ns2[p + 1] == onodes[p]);
                            }
                        }
                    }
                }
                assert(ends_ok(self.head, ns2)) by {
                    assert(ns2.last().key == onodes.last().key);
                }
            }
        }
        self.head.element_count = self.head.element_count + 1;
    }

    /// Append an element: into the tail node's block while it has room,
    /// else as a freshly keyed node spliced in at the tail end.
    #[verifier::rlimit(100)]
    #[verifier::spinoff_prover]
    pub fn push_back(&mut self, value: Vec<u8>, fresh: u64)
        requires
            wf_record(*old(self)),
            chain_view(old(self).nodes@).len() < u32::MAX,
        ensures
            wf_record(*final(self)),
            final(self).key == old(self).key,
            chain_view(final(self).nodes@) == chain_view(old(self).nodes@).push(value@),
            final(self).head.element_count == old(self).head.element_count + 1,
    {
        let ghost onodes = self.nodes@;
        proof {
            lemma_chain_view_len_ge(onodes);
        }
        let last = self.nodes.len() - 1;
        let ghost li = last as int;
        proof {
            lemma_chain_view_split(onodes, li);
            lemma_chain_view_skip_unfold(onodes, li);
            assert(onodes.skip(li + 1) =~= Seq::<ListNode>::empty());
            assert(chain_view(onodes) == chain_view(onodes.take(li)) + onodes[li].block@);
        }
        let room = self.nodes[last].block.len() < BLOCK_CAPACITY;
        if room {
            let mut f = self.nodes.remove(last);
            f.block.push_right(value);
            f.element_count = f.element_count + 1;
            let ghost f2 = f;
            self.nodes.insert(last, f);
            proof {
                let ns2 = self.nodes@;
                assert(ns2 =~= onodes.update(li, f2));
                lemma_chain_view_split(ns2, li);
                lemma_chain_view_skip_unfold(ns2, li);
                assert(ns2.skip(li + 1) =~= Seq::<ListNode>::empty());
                assert(ns2.take(li) =~= onodes.take(li));
                assert(chain_view(ns2) == chain_view(onodes.take(li)) + f2.block@);
                assert(chain_view(ns2) =~= chain_view(onodes).push(value@));
                assert(linked(ns2)) by {
                    assert forall|p: int|
                        0 <= p < ns2.len() implies {
                            &&& (#[trigger] ns2[p]).left == (if p == 0 {
                                None::<u64>
                            } else {
                                Some(ns2[p - 1].key)
                            })
                            &&& ns2[p].right == (if p == ns2.len() - 1 {
                                None::<u64>
                            } else {
                                Some(ns2[p + 1].key)
                            })
                        } by {
                        assert(ns2[p].key == onodes[p].key && ns2[p].left == onodes[p].left
                            && ns2[p].right == onodes[p].right);
                        if p > 0 {
                            assert(ns2[p - 1].key == onodes[p - 1].key);
                        }
                        if p < ns2.len() - 1 {
                            assert(ns2[p + 1].key == onodes[p + 1].key);
                        }
                    }
                }
                assert(ends_ok(self.head, ns2)) by {
                    assert(ns2[0].key == onodes[0].key);
                    assert(ns2.last().key == onodes.last().key);
                }
            }
        } else {
            let mut f = self.nodes.remove(last);
            let node = ListNode {
                key: fresh,
                left: Some(f.key),
                right: None,
                element_count: 1,
                block: PackedBlock::singleton(value),
            };
            let ghost gn = node;
            f.right = Some(fresh);
            let ghost f2 = f;
            self.nodes.insert(last, f);
            self.nodes.push(node);
            self.head.right = Some(fresh);
            self.head.node_count = self.head.node_count + 1;
            proof {
                let ns2 = self.nodes@;
                assert(ns2 =~= onodes.update(li, f2) + seq![gn]);
                lemma_chain_view_concat(onodes.update(li, f2), seq![gn]);
                lemma_chain_view_singleton(gn);
                lemma_chain_view_blocks(onodes.update(li, f2), onodes);
                assert(chain_view(ns2) =~= chain_view(onodes).push(value@));
                assert(linked(ns2)) by {
                    assert forall|p: int|
                        0 <= p < ns2.len() implies {
                            &&& (#[trigger] ns2[p]).left == (if p == 0 {
                                None::<u64>
                            } else {
                                Some(ns2[p - 1].key)
                            })
                            &&& ns2[p].right == (if p == ns2.len() - 1 {
                                None::<u64>
                            } else {
                                Some(ns2[p + 1].key)
                            })
                        } by {
                        if p < li {
                            assert(ns2[p] == onodes[p]);
                            if p > 0 {
                                assert(ns2[p - 1] == onodes[p - 1]);
                            }
                            if p + 1 < li {
                                assert(ns2[p + 1] == onodes[p + 1]);
                            } else if p + 1 == li {
                                assert(ns2[p + 1].key == onodes[li].key);
                            }
                        } else if p == li {
                            assert(ns2[p].key == onodes[li].key && ns2[p].left == onodes[li].left);
                            assert(ns2[p].right == Some(gn.key));
                            if p > 0 {
                                assert(ns2[p - 1] == onodes[p - 1]);
                            }
                            assert(ns2[p + 1].key == gn.key);
                        } else {
                            assert(ns2[p] == gn);
                            assert(ns2[p - 1].key == onodes[li].key);
                        }
                    }
                }
                assert(ends_ok(self.head, ns2)) by {
                    if ns2.len() > 1 {
                        assert(ns2[0].key == onodes[0].key);
                    }
                }
            }
        }
        self.head.element_count = self.head.element_count + 1;
    }
}

impl ListRecord {
    /// Remove and return the first element. When the head node's block
    /// empties, the node is spliced out in the same step; when it was the
    /// only node, the chain empties and the caller deletes the record.
    #[verifier::rlimit(100)]
    #[verifier::spinoff_prover]
    pub fn pop_front(&mut self) -> (v: Vec<u8>)
        requires
            wf_record(*old(self)),
        ensures
            v@ == chain_view(old(self).nodes@)[0],
            final(self).key == old(self).key,
            chain_view(final(self).nodes@) == chain_view(old(self).nodes@).drop_first(),
            final(self).head.element_count == old(self).head.element_count - 1,
            final(self).nodes@.len() == 0 <==> chain_view(old(self).nodes@).len() == 1,
            final(self).nodes@.len() > 0 ==> wf_record(*final(self)),
    {
        let ghost onodes = self.nodes@;
        let ghost oview = chain_view(onodes);
        let mut f = self.nodes.remove(0);
        let v = f.block.pop_left();
        f.element_count = f.element_count - 1;
        let emptied = f.block.len() == 0;
        let ghost f2 = f;
        self.nodes.insert(0, f);
        proof {
            let ns2 = self.nodes@;
            assert(ns2 =~= onodes.update(0, f2));
            assert(ns2.drop_first() =~= onodes.drop_first());
            assert(chain_view(ns2) == f2.block@ + chain_view(onodes.drop_first()));
            assert(chain_view(onodes) == onodes[0].block@ + chain_view(onodes.drop_first()));
            assert(v@ == oview[0]);
            assert(chain_view(ns2) =~= oview.drop_first());
            assert(linked(ns2)) by {
                assert forall|p: int|
                    0 <= p < ns2.len() implies {
                        &&& (#[trigger] ns2[p]).left == (if p == 0 {
                            None::<u64>
                        } else {
                            Some(ns2[p - 1].key)
                        })
                        &&& ns2[p].right == (if p == ns2.len() - 1 {
                            None::<u64>
                        } else {
                            Some(ns2[p + 1].key)
                        })
                    } by {
                    assert(ns2[p].key == onodes[p].key && ns2[p].left == onodes[p].left
                        && ns2[p].right == onodes[p].right);
                    if p > 0 {
                        assert(ns2[p - 1].key == onodes[p - 1].key);
                    }
                    if p < ns2.len() - 1 {
                        assert(ns2[p + 1].key == onodes[p + 1].key);
                    }
                }
            }
            assert(ends_ok(self.head, ns2)) by {
                assert(ns2[0].key == onodes[0].key);
                assert(ns2.last().key == onodes.last().key);
            }
            assert forall|j: int| 0 <= j < ns2.len() && j != 0 implies wf_node(
                #[trigger] ns2[j],
            ) by {
                assert(ns2[j] == onodes[j]);
            }
        }
        if emptied {
            let ghost mid = self.nodes@;
            if self.nodes.len() == 1 {
                let _ = self.nodes.remove(0);
                self.head.left = None;
                self.head.right = None;
                self.head.node_count = 0;
                proof {
                    assert(self.nodes@ =~= Seq::<ListNode>::empty());
                    assert(chain_view(mid) == f2.block@ + chain_view(mid.drop_first()));
                    assert(mid.drop_first() =~= Seq::<ListNode>::empty());
                    assert(chain_view(self.nodes@) =~= oview.drop_first());
                    assert(oview.len() == 1);
                }
            } else {
                proof {
                    lemma_chain_view_len_ge(onodes.drop_first());
                    assert(onodes.drop_first()[0] == onodes[1]);
                    assert(wf_node(onodes[1]));
                }
                self.splice_out(0);
                proof {
                    assert(mid.take(0) =~= Seq::<ListNode>::empty());
                    assert(mid.skip(1) =~= mid.drop_first());
                    assert(chain_view(self.nodes@) =~= chain_view(mid.drop_first()));
                    assert(chain_view(mid) == f2.block@ + chain_view(mid.drop_first()));
                    assert(f2.block@ =~= Seq::<Seq<u8>>::empty());
                    assert(chain_view(self.nodes@) =~= oview.drop_first());
                    assert(chain_view(mid.drop_first()).len() >= 1) by {
                        assert(mid.drop_first() =~= onodes.drop_first());
                        lemma_chain_view_len_ge(onodes.drop_first());
                    }
                }
            }
        } else {
            proof {
                assert(self.nodes@.len() > 0);
                assert(wf_node(f2));
                lemma_chain_view_len_ge(self.nodes@);
            }
        }
        self.head.element_count = self.head.element_count - 1;
        v
    }

    /// Remove and return the last element; the mirror of `pop_front`.
    #[verifier::rlimit(100)]
    #[verifier::spinoff_prover]
    pub fn pop_back(&mut self) -> (v: Vec<u8>)
        requires
            wf_record(*old(self)),
        ensures
            v@ == chain_view(old(self).nodes@).last(),
            final(self).key == old(self).key,
            chain_view(final(self).nodes@) == chain_view(old(self).nodes@).drop_last(),
            final(self).head.element_count == old(self).head.element_count - 1,
            final(self).nodes@.len() == 0 <==> chain_view(old(self).nodes@).len() == 1,
            final(self).nodes@.len() > 0 ==> wf_record(*final(self)),
    {
        let ghost onodes = self.nodes@;
        let ghost oview = chain_view(onodes);
        let last = self.nodes.len() - 1;
        let ghost li = last as int;
        proof {
            lemma_chain_view_split(onodes, li);
            lemma_chain_view_skip_unfold(onodes, li);
            assert(onodes.skip(li + 1) =~= Seq::<ListNode>::empty());
            assert(oview == chain_view(onodes.take(li)) + onodes[li].block@);
            assert(wf_node(onodes[li]));
        }
        let mut f = self.nodes.remove(last);
        let v = f.block.pop_right();
        f.element_count = f.element_count - 1;
        let emptied = f.block.len() == 0;
        let ghost f2 = f;
        self.nodes.insert(last, f);
        proof {
            let ns2 = self.nodes@;
            assert(ns2 =~= onodes.update(li, f2));
            lemma_chain_view_split(ns2, li);
            lemma_chain_view_skip_unfold(ns2, li);
            assert(ns2.skip(li + 1) =~= Seq::<ListNode>::empty());
            assert(ns2.take(li) =~= onodes.take(li));
            assert(chain_view(ns2) == chain_view(onodes.take(li)) + f2.block@);
            assert(v@ == oview.last());
            assert(chain_view(ns2) =~= oview.drop_last());
            assert(linked(ns2)) by {
                assert forall|p: int|
                    0 <= p < ns2.len() implies {
                        &&& (#[trigger] ns2[p]).left == (if p == 0 {
                            None::<u64>
                        } else {
                            Some(ns2[p - 1].key)
                        })
                        &&& ns2[p].right == (if p == ns2.len() - 1 {
                            None::<u64>
                        } else {
                            Some(ns2[p + 1].key)
                        })
                    } by {
                    assert(ns2[p].key == onodes[p].key && ns2[p].left == onodes[p].left
                        && ns2[p].right == onodes[p].right);
                    if p > 0 {
                        assert(ns2[p - 1].key == onodes[p - 1].key);
                    }
                    if p < ns2.len() - 1 {
                        assert(ns2[p + 1].key == onodes[p + 1].key);
                    }
                }
            }
            assert(ends_ok(self.head, ns2)) by {
                assert(ns2[0].key == onodes[0].key);
                assert(ns2.last().key == onodes.last().key);
            }
            assert forall|j: int| 0 <= j < ns2.len() && j != li implies wf_node(
                #[trigger] ns2[j],
            ) by {
                assert(ns2[j] == onodes[j]);
            }
        }
        if emptied {
            let ghost mid = self.nodes@;
            if self.nodes.len() == 1 {
                let _ = self.nodes.remove(0);
                self.head.left = None;
                self.head.right = None;
                self.head.node_count = 0;
                proof {
                    assert(self.nodes@ =~= Seq::<ListNode>::empty());
                    assert(chain_view(mid) == chain_view(mid.take(0)) + f2.block@);
                    assert(mid.take(0) =~= Seq::<ListNode>::empty());
                    assert(chain_view(self.nodes@) =~= oview.drop_last());
                    assert(oview.len() == 1);
                }
            } else {
                proof {
                    lemma_chain_view_len_ge(onodes.take(li));
                }
                self.splice_out(last);
                proof {
                    assert(mid.skip(li + 1) =~= Seq::<ListNode>::empty());
                    assert(mid.take(li) =~= onodes.take(li));
                    assert(chain_view(self.nodes@) == chain_view(mid.take(li)) + chain_view(
                        mid.skip(li + 1),
                    ));
                    assert(chain_view(self.nodes@) =~= chain_view(onodes.take(li)));
                    assert(f2.block@ =~= Seq::<Seq<u8>>::empty());
                    assert(chain_view(self.nodes@) =~= oview.drop_last());
                }
            }
        } else {
            proof {
                assert(self.nodes@.len() > 0);
                assert(wf_node(f2));
                lemma_chain_view_len_ge(self.nodes@);
            }
        }
        self.head.element_count = self.head.element_count - 1;
        v
    }
}

impl ListRecord {
    /// Splice node `i` out of the chain: rewire exactly the two neighbours
    /// (or the head's end pointer at a boundary) and drop the node. The one
    /// routine every removing operation uses, so the doubly-linked invariant
    /// is restored identically everywhere. The node's (possibly emptied)
    /// block leaves with it; the head's element count is the caller's to fix.
    #[verifier::rlimit(100)]
    pub fn splice_out(&mut self, i: usize)
        requires
            old(self).nodes@.len() >= 2,
            i < old(self).nodes@.len(),
            linked(old(self).nodes@),
            ends_ok(old(self).head, old(self).nodes@),
            old(self).head.node_count as nat == old(self).nodes@.len(),
            forall|j: int|
                0 <= j < old(self).nodes@.len() && j != i ==> wf_node(
                    #[trigger] old(self).nodes@[j],
                ),
        ensures
            final(self).key == old(self).key,
            final(self).nodes@.len() == old(self).nodes@.len() - 1,
            chain_view(final(self).nodes@) == chain_view(old(self).nodes@.take(i as int))
                + chain_view(old(self).nodes@.skip(i + 1)),
            linked(final(self).nodes@),
            ends_ok(final(self).head, final(self).nodes@),
            final(self).head.node_count as nat == final(self).nodes@.len(),
            forall|j: int|
                0 <= j < final(self).nodes@.len() ==> wf_node(#[trigger] final(self).nodes@[j]),
            final(self).head.element_count == old(self).head.element_count,
            forall|t: int|
                0 <= t < final(self).nodes@.len() ==> (#[trigger] final(self).nodes@[t]).block
                    == (if t < i {
                    old(self).nodes@[t].block
                } else {
                    old(self).nodes@[t + 1].block
                }) && final(self).nodes@[t].element_count == (if t < i {
                    old(self).nodes@[t].element_count
                } else {
                    old(self).nodes@[t + 1].element_count
                }),
    {
        let ghost orig = self.nodes@;
        let ghost ii = i as int;
        let n = self.nodes.remove(i);
        let ghost a0 = self.nodes@;
        proof {
            assert(a0 =~= orig.take(ii) + orig.skip(ii + 1));
        }
        if i < self.nodes.len() {
            let mut q = self.nodes.remove(i);
            q.left = n.left;
            self.nodes.insert(i, q);
            proof {
                assert(self.nodes@ =~= a0.update(ii, self.nodes@[ii]));
            }
        } else {
            self.head.right = n.left;
        }
        let ghost a1 = self.nodes@;
        if i > 0 {
            let mut p = self.nodes.remove(i - 1);
            p.right = n.right;
            self.nodes.insert(i - 1, p);
            proof {
                assert(self.nodes@ =~= a1.update(ii - 1, self.nodes@[ii - 1]));
            }
        } else {
            self.head.left = n.right;
        }
        self.head.node_count = self.head.node_count - 1;
        proof {
            let ns2 = self.nodes@;
            assert(ns2.len() == orig.len() - 1);
            assert forall|j: int| 0 <= j < ii - 1 implies #[trigger] ns2[j] == orig[j] by {
                assert(ns2[j] == a0[j]);
                assert(a0[j] == orig[j]);
            }
            assert forall|j: int| ii + 1 <= j < ns2.len() implies #[trigger] ns2[j] == orig[j
                + 1] by {
                assert(ns2[j] == a0[j]);
                assert(a0[j] == orig[j + 1]);
            }
            if ii - 1 >= 0 {
                assert(a0[ii - 1] == orig[ii - 1]);
            }
            if ii < ns2.len() {
                assert(a0[ii] == orig[ii + 1]);
            }
            lemma_splice_props(orig, ns2, ii);
            if ii == 0 {
                assert(self.head.left == orig[0].right);
                assert(orig[0].right == Some(orig[1].key));
            }
            if ii == orig.len() - 1 {
                assert(self.head.right == orig[ii].left);
                assert(orig[ii].left == Some(orig[ii - 1].key));
            }
            assert(ends_ok(self.head, ns2));
        }
    }
}

} // verus!
