//! The operation layer: every public list operation locates the list record
//! by its external key, walks or edits the chain, and leaves the store well
//! formed. Contracts state each effect through the model functions, plus a
//! frame clause: no operation touches any other key.
use vstd::prelude::*;
use crate::Error;
use crate::block::{PackedBlock, bytes_eq, clone_bytes, resolve_index, intersect_window, bspec,
    budget_sub, rem_fwd, rem_bwd, cnt_fwd, cnt_bwd, lemma_cnt_fwd_le_len, lemma_cnt_bwd_le_len,
    lemma_rem_fwd_concat, lemma_rem_bwd_concat, lemma_cnt_fwd_le_budget, lemma_cnt_bwd_le_budget};
use crate::chain::{ListNode, ListHead, ListRecord, chain_view, wf_node, wf_record, linked,
    ends_ok, lemma_chain_view_concat, lemma_chain_view_split, lemma_chain_view_singleton,
    lemma_chain_view_skip_unfold, lemma_chain_view_blocks, lemma_chain_view_len_ge, blocks_eq,
    lemma_blocks_eq_view, lemma_linked_update_same};
use crate::model::{opt_list, norm, m_llen, m_lpush, m_rpush, m_lpop_value, m_lpop_rest,
    m_rpop_value, m_rpop_rest, m_lindex, m_lrange, m_lrem_rest, m_lrem_cnt, first_idx,
    lemma_first_idx_props, m_linsert, m_linsert_cnt};

verus! {

/// The store of lists: one record per external key.
pub struct ListEngine {
    lists: Vec<ListRecord>,
    next_key: u64,
}

/// The list stored under `k`, scanning the records in order.
pub open spec fn lookup(s: Seq<ListRecord>, k: Seq<u8>) -> Option<Seq<Seq<u8>>>
    decreases s.len(),
{
    if s.len() == 0 {
        None
    } else if s[0].key@ == k {
        Some(chain_view(s[0].nodes@))
    } else {
        lookup(s.drop_first(), k)
    }
}

proof fn lemma_lookup_none(s: Seq<ListRecord>, k: Seq<u8>)
    requires
        forall|j: int| 0 <= j < s.len() ==> (#[trigger] s[j]).key@ != k,
    ensures
        lookup(s, k) == None::<Seq<Seq<u8>>>,
    decreases s.len(),
{
    if s.len() > 0 {
        assert(forall|j: int|
            0 <= j < s.drop_first().len() ==> (#[trigger] s.drop_first()[j]).key@ != k);
        lemma_lookup_none(s.drop_first(), k);
    }
}

proof fn lemma_lookup_at(s: Seq<ListRecord>, i: int, k: Seq<u8>)
    requires
        0 <= i < s.len(),
        s[i].key@ == k,
        forall|j: int| 0 <= j < i ==> (#[trigger] s[j]).key@ != k,
    ensures
        lookup(s, k) == Some(chain_view(s[i].nodes@)),
    decreases i,
{
    if i > 0 {
        assert(s.drop_first()[i - 1] == s[i]);
        assert(forall|j: int|
            0 <= j < i - 1 ==> (#[trigger] s.drop_first()[j]).key@ != k && s.drop_first()[j] == s[j
                + 1]);
        lemma_lookup_at(s.drop_first(), i - 1, k);
    }
}

proof fn lemma_lookup_update(s: Seq<ListRecord>, i: int, r2: ListRecord, k: Seq<u8>)
    requires
        0 <= i < s.len(),
        r2.key@ == s[i].key@,
        forall|j: int| 0 <= j < s.len() && j != i ==> (#[trigger] s[j]).key@ != s[i].key@,
    ensures
        lookup(s.update(i, r2), k) == (if k == r2.key@ {
            Some(chain_view(r2.nodes@))
        } else {
            lookup(s, k)
        }),
    decreases s.len(),
{
    let s2 = s.update(i, r2);
    if i == 0 {
        assert(s2[0] == r2);
        if k != r2.key@ {
            assert(s2.drop_first() =~= s.drop_first());
        }
    } else {
        assert(s2[0] == s[0]);
        if k == s[0].key@ {
            assert(k != r2.key@);
        } else {
            assert(s2.drop_first() =~= s.drop_first().update(i - 1, r2));
            assert(s.drop_first()[i - 1] == s[i]);
            assert forall|j: int|
                0 <= j < s.drop_first().len() && j != i - 1 implies (#[trigger] s.drop_first()[j]).key@
                != s.drop_first()[i - 1].key@ by {
                assert(s.drop_first()[j] == s[j + 1]);
            }
            lemma_lookup_update(s.drop_first(), i - 1, r2, k);
        }
    }
}

proof fn lemma_lookup_remove(s: Seq<ListRecord>, i: int, k: Seq<u8>)
    requires
        0 <= i < s.len(),
        forall|j: int| 0 <= j < s.len() && j != i ==> (#[trigger] s[j]).key@ != s[i].key@,
    ensures
        lookup(s.remove(i), k) == (if k == s[i].key@ {
            None::<Seq<Seq<u8>>>
        } else {
            lookup(s, k)
        }),
    decreases s.len(),
{
    let s2 = s.remove(i);
    if i == 0 {
        assert(s2 =~= s.drop_first());
        if k == s[0].key@ {
            assert(forall|j: int|
                0 <= j < s2.len() ==> (#[trigger] s2[j]).key@ != k);
            lemma_lookup_none(s2, k);
        }
    } else {
        assert(s2[0] == s[0]);
        if k != s[0].key@ {
            assert(s2.drop_first() =~= s.drop_first().remove(i - 1));
            assert(s.drop_first()[i - 1] == s[i]);
            assert forall|j: int|
                0 <= j < s.drop_first().len() && j != i - 1 implies (#[trigger] s.drop_first()[j]).key@
                != s.drop_first()[i - 1].key@ by {
                assert(s.drop_first()[j] == s[j + 1]);
            }
            lemma_lookup_remove(s.drop_first(), i - 1, k);
        }
    }
}

proof fn lemma_lookup_push(s: Seq<ListRecord>, r2: ListRecord, k: Seq<u8>)
    requires
        forall|j: int| 0 <= j < s.len() ==> (#[trigger] s[j]).key@ != r2.key@,
    ensures
        lookup(s.push(r2), k) == (if k == r2.key@ {
            Some(chain_view(r2.nodes@))
        } else {
            lookup(s, k)
        }),
    decreases s.len(),
{
    let s2 = s.push(r2);
    if s.len() == 0 {
        assert(s2[0] == r2);
        if k != r2.key@ {
            assert(s2.drop_first() =~= Seq::<ListRecord>::empty());
            assert(lookup(s2, k) == None::<Seq<Seq<u8>>>);
        }
    } else {
        assert(s2[0] == s[0]);
        if k == s[0].key@ {
            assert(k != r2.key@);
            assert(lookup(s2, k) == Some(chain_view(s[0].nodes@)));
            assert(lookup(s, k) == Some(chain_view(s[0].nodes@)));
        } else {
            assert(s2.drop_first() =~= s.drop_first().push(r2));
            assert(forall|j: int|
                0 <= j < s.drop_first().len() ==> (#[trigger] s.drop_first()[j]).key@ != r2.key@);
            lemma_lookup_push(s.drop_first(), r2, k);
            assert(lookup(s2, k) == lookup(s2.drop_first(), k));
            assert(lookup(s, k) == lookup(s.drop_first(), k));
        }
    }
}

proof fn lemma_lookup_nonempty(s: Seq<ListRecord>, k: Seq<u8>)
    requires
        forall|i: int| 0 <= i < s.len() ==> wf_record(#[trigger] s[i]),
        lookup(s, k) is Some,
    ensures
        opt_list(lookup(s, k)).len() > 0,
    decreases s.len(),
{
    if s.len() > 0 {
        if s[0].key@ == k {
            assert(wf_record(s[0]));
            lemma_chain_view_len_ge(s[0].nodes@);
        } else {
            assert(forall|i: int|
                0 <= i < s.drop_first().len() ==> wf_record(#[trigger] s.drop_first()[i]));
            lemma_lookup_nonempty(s.drop_first(), k);
        }
    }
}

impl ListEngine {
    /// Every stored record is well formed and keys are distinct.
    pub closed spec fn wf(self) -> bool {
        &&& (forall|i: int| 0 <= i < self.lists@.len() ==> wf_record(#[trigger] self.lists@[i]))
        &&& (forall|i: int, j: int|
            0 <= i < j < self.lists@.len() ==> self.lists@[i].key@ != self.lists@[j].key@)
    }

    /// The list stored under `k`: `None` when no such list was ever created
    /// (or its last element was removed).
    pub closed spec fn list_of(self, k: Seq<u8>) -> Option<Seq<Seq<u8>>> {
        lookup(self.lists@, k)
    }

    pub fn new() -> (e: ListEngine)
        ensures
            e.wf(),
            forall|k: Seq<u8>| e.list_of(k) == None::<Seq<Seq<u8>>>,
    {
        ListEngine { lists: Vec::new(), next_key: 0 }
    }

    /// The lifecycle invariant, publicly: a stored list is never empty. A
    /// list whose last element is removed loses its head record in the same
    /// step, so the length query never reports zero.
    pub proof fn lemma_stored_nonempty(self, k: Seq<u8>)
        requires
            self.wf(),
            self.list_of(k) is Some,
        ensures
            opt_list(self.list_of(k)).len() > 0,
            m_llen(self.list_of(k)) != Some(0nat),
    {
        lemma_lookup_nonempty(self.lists@, k);
    }

    /// Where `key`'s record sits, with everything the callers re-prove from
    /// it: the match, the looked-up view, and that no other record matches.
    #[verifier::rlimit(100)]
    #[verifier::spinoff_prover]
    fn find_list(&self, key: &Vec<u8>) -> (r: Option<usize>)
        requires
            self.wf(),
        ensures
            match r {
                Some(i) => {
                    &&& i < self.lists@.len()
                    &&& self.lists@[i as int].key@ == key@
                    &&& self.list_of(key@) == Some(chain_view(self.lists@[i as int].nodes@))
                    &&& (forall|j: int|
                        0 <= j < self.lists@.len() && j != i ==> (#[trigger] self.lists@[j]).key@
                            != key@)
                },
                None => {
                    &&& self.list_of(key@) == None::<Seq<Seq<u8>>>
                    &&& (forall|j: int|
                        0 <= j < self.lists@.len() ==> (#[trigger] self.lists@[j]).key@ != key@)
                },
            },
    {
        let mut i: usize = 0;
        while i < self.lists.len()
            invariant
                self.wf(),
                i <= self.lists@.len(),
                forall|j: int| 0 <= j < i ==> (#[trigger] self.lists@[j]).key@ != key@,
            decreases self.lists@.len() - i,
    {
            if bytes_eq(&self.lists[i].key, key) {
                proof {
                    lemma_lookup_at(self.lists@, i as int, key@);
                    assert forall|j: int|
                        0 <= j < self.lists@.len() && j != i implies (#[trigger] self.lists@[j]).key@
                        != key@ by {
                        if j < i as int {
                        } else {
                            assert(self.lists@[i as int].key@ != self.lists@[j].key@);
                        }
                    }
                }
                return Some(i);
            }
            i += 1;
        }
        proof {
            lemma_lookup_none(self.lists@, key@);
        }
        None
    }

    /// The list's length, or none when no such list exists: an empty list
    /// and a never-created one are distinguished.
    pub fn llen(&self, key: &Vec<u8>) -> (r: Option<u32>)
        requires
            self.wf(),
        ensures
            match r {
                None => m_llen(self.list_of(key@)) == None::<nat>,
                Some(x) => m_llen(self.list_of(key@)) == Some(x as nat),
            },
    {
        match self.find_list(key) {
            None => None,
            Some(i) => Some(self.lists[i].head.element_count),
        }
    }

    /// Make a fresh single-node list for `key`.
    fn create_list(&mut self, key: &Vec<u8>, value: Vec<u8>) -> (n: u32)
        requires
            old(self).wf(),
            forall|j: int|
                0 <= j < old(self).lists@.len() ==> (#[trigger] old(self).lists@[j]).key@ != key@,
        ensures
            final(self).wf(),
            final(self).list_of(key@) == Some(seq![value@]),
            forall|k2: Seq<u8>| k2 != key@ ==> final(self).list_of(k2) == old(self).list_of(k2),
            n == 1,
    {
        let ghost ol = self.lists@;
        let fresh = self.next_key;
        self.next_key = self.next_key.wrapping_add(1);
        let node = ListNode {
            key: fresh,
            left: None,
            right: None,
            element_count: 1,
            block: PackedBlock::singleton(value),
        };
        let ghost gn = node;
        let mut nodes: Vec<ListNode> = Vec::new();
        nodes.push(node);
        let rec = ListRecord {
            key: clone_bytes(key),
            head: ListHead { left: Some(fresh), right: Some(fresh), element_count: 1, node_count: 1 },
            nodes,
        };
        let ghost grec = rec;
        self.lists.push(rec);
        proof {
            assert(self.lists@ =~= ol.push(grec));
            assert(grec.nodes@ =~= seq![gn]);
            lemma_chain_view_singleton(gn);
            assert(wf_record(grec)) by {
                assert(wf_node(gn));
                assert(linked(grec.nodes@)) by {
                    assert(grec.nodes@.len() == 1);
                }
                assert(ends_ok(grec.head, grec.nodes@));
                assert(chain_view(grec.nodes@).len() == 1);
            }
            assert forall|j: int| 0 <= j < self.lists@.len() implies wf_record(
                #[trigger] self.lists@[j],
            ) by {
                if j < ol.len() {
                    assert(self.lists@[j] == ol[j]);
                }
            }
            assert forall|a: int, b: int|
                0 <= a < b < self.lists@.len() implies self.lists@[a].key@
                != self.lists@[b].key@ by {
                if b < ol.len() {
                    assert(self.lists@[a] == ol[a] && self.lists@[b] == ol[b]);
                } else {
                    assert(self.lists@[a] == ol[a] && ol[a].key@ != key@);
                }
            }
            assert forall|k2: Seq<u8>| true implies lookup(self.lists@, k2) == (if k2 == key@ {
                Some(seq![value@])
            } else {
                lookup(ol, k2)
            }) by {
                lemma_lookup_push(ol, grec, k2);
            }
        }
        1
    }

    /// Push into the existing record at `i`, at the chosen end.
    #[verifier::rlimit(100)]
    #[verifier::spinoff_prover]
    fn push_into(&mut self, i: usize, value: Vec<u8>, at_left: bool) -> (n: u32)
        requires
            old(self).wf(),
            i < old(self).lists@.len(),
            chain_view(old(self).lists@[i as int].nodes@).len() < u32::MAX,
        ensures
            final(self).wf(),
            ({
                let k = old(self).lists@[i as int].key@;
                let ov = chain_view(old(self).lists@[i as int].nodes@);
                let nv = if at_left {
                    seq![value@] + ov
                } else {
                    ov.push(value@)
                };
                &&& final(self).list_of(k) == Some(nv)
                &&& (forall|k2: Seq<u8>|
                    k2 != k ==> final(self).list_of(k2) == old(self).list_of(k2))
                &&& n as nat == ov.len() + 1
            }),
    {
        let ghost ol = self.lists@;
        let fresh = self.next_key;
        self.next_key = self.next_key.wrapping_add(1);
        let mut rec = self.lists.remove(i);
        proof {
            assert(wf_record(rec));
        }
        if at_left {
            rec.push_front(value, fresh);
        } else {
            rec.push_back(value, fresh);
        }
        let n = rec.head.element_count;
        let ghost grec = rec;
        self.lists.insert(i, rec);
        proof {
            assert(self.lists@ =~= ol.update(i as int, grec));
            assert forall|j: int| 0 <= j < self.lists@.len() implies wf_record(
                #[trigger] self.lists@[j],
            ) by {
                if j != i as int {
                    assert(self.lists@[j] == ol[j]);
                }
            }
            assert forall|a: int, b: int|
                0 <= a < b < self.lists@.len() implies self.lists@[a].key@
                != self.lists@[b].key@ by {
                assert(self.lists@[a].key@ == ol[a].key@ && self.lists@[b].key@ == ol[b].key@);
            }
            assert forall|k2: Seq<u8>| true implies lookup(self.lists@, k2) == (if k2
                == grec.key@ {
                Some(chain_view(grec.nodes@))
            } else {
                lookup(ol, k2)
            }) by {
                lemma_lookup_update(ol, i as int, grec, k2);
            }
        }
        n
    }

    /// Prepend a value, creating the list when absent; the new length.
    pub fn lpush(&mut self, key: &Vec<u8>, value: Vec<u8>) -> (n: u32)
        requires
            old(self).wf(),
            opt_list(old(self).list_of(key@)).len() < u32::MAX,
        ensures
            final(self).wf(),
            final(self).list_of(key@) == Some(m_lpush(old(self).list_of(key@), value@)),
            forall|k2: Seq<u8>| k2 != key@ ==> final(self).list_of(k2) == old(self).list_of(k2),
            n as nat == opt_list(old(self).list_of(key@)).len() + 1,
    {
        match self.find_list(key) {
            None => {
                let n = self.create_list(key, value);
                proof {
                    assert(m_lpush(None::<Seq<Seq<u8>>>, value@) =~= seq![value@]);
                }
                n
            },
            Some(i) => self.push_into(i, value, true),
        }
    }

    /// Append a value, creating the list when absent; the new length.
    pub fn rpush(&mut self, key: &Vec<u8>, value: Vec<u8>) -> (n: u32)
        requires
            old(self).wf(),
            opt_list(old(self).list_of(key@)).len() < u32::MAX,
        ensures
            final(self).wf(),
            final(self).list_of(key@) == Some(m_rpush(old(self).list_of(key@), value@)),
            forall|k2: Seq<u8>| k2 != key@ ==> final(self).list_of(k2) == old(self).list_of(k2),
            n as nat == opt_list(old(self).list_of(key@)).len() + 1,
    {
        match self.find_list(key) {
            None => {
                let n = self.create_list(key, value);
                proof {
                    assert(m_rpush(None::<Seq<Seq<u8>>>, value@) =~= seq![value@]);
                }
                n
            },
            Some(i) => self.push_into(i, value, false),
        }
    }

    /// Prepend only when the list already exists; the new length, or zero
    /// as the not-created signal.
    pub fn lpush_exists(&mut self, key: &Vec<u8>, value: Vec<u8>) -> (n: u32)
        requires
            old(self).wf(),
            opt_list(old(self).list_of(key@)).len() < u32::MAX,
        ensures
            final(self).wf(),
            old(self).list_of(key@) is None ==> n == 0 && *final(self) == *old(self),
            old(self).list_of(key@) is Some ==> final(self).list_of(key@) == Some(
                m_lpush(old(self).list_of(key@), value@),
            ) && n as nat == opt_list(old(self).list_of(key@)).len() + 1,
            forall|k2: Seq<u8>| k2 != key@ ==> final(self).list_of(k2) == old(self).list_of(k2),
    {
        match self.find_list(key) {
            None => 0,
            Some(i) => self.push_into(i, value, true),
        }
    }

    /// Append only when the list already exists; the new length, or zero.
    pub fn rpush_exists(&mut self, key: &Vec<u8>, value: Vec<u8>) -> (n: u32)
        requires
            old(self).wf(),
            opt_list(old(self).list_of(key@)).len() < u32::MAX,
        ensures
            final(self).wf(),
            old(self).list_of(key@) is None ==> n == 0 && *final(self) == *old(self),
            old(self).list_of(key@) is Some ==> final(self).list_of(key@) == Some(
                m_rpush(old(self).list_of(key@), value@),
            ) && n as nat == opt_list(old(self).list_of(key@)).len() + 1,
            forall|k2: Seq<u8>| k2 != key@ ==> final(self).list_of(k2) == old(self).list_of(k2),
    {
        match self.find_list(key) {
            None => 0,
            Some(i) => self.push_into(i, value, false),
        }
    }

    /// Remove and return the first element; an absent list is reported, and
    /// removing the last element deletes the list record.
    #[verifier::rlimit(100)]
    #[verifier::spinoff_prover]
    pub fn lpop(&mut self, key: &Vec<u8>) -> (r: Result<Vec<u8>, Error>)
        requires
            old(self).wf(),
        ensures
            final(self).wf(),
            match r {
                Ok(v) => {
                    &&& old(self).list_of(key@) is Some
                    &&& Some(v@) == m_lpop_value(old(self).list_of(key@))
                    &&& final(self).list_of(key@) == m_lpop_rest(old(self).list_of(key@))
                    &&& (forall|k2: Seq<u8>|
                        k2 != key@ ==> final(self).list_of(k2) == old(self).list_of(k2))
                },
                Err(e) => {
                    &&& e == Error::NotFound
                    &&& old(self).list_of(key@) is None
                    &&& *final(self) == *old(self)
                },
            },
    {
        match self.find_list(key) {
            None => Err(Error::NotFound),
            Some(i) => {
                let ghost ol = self.lists@;
                let ghost ov = chain_view(ol[i as int].nodes@);
                let mut rec = self.lists.remove(i);
                proof {
                    assert(wf_record(rec));
                    lemma_chain_view_len_ge(rec.nodes@);
                }
                let v = rec.pop_front();
                if rec.nodes.len() == 0 {
                    proof {
                        assert(self.lists@ =~= ol.remove(i as int));
                        assert forall|j: int| 0 <= j < self.lists@.len() implies wf_record(
                            #[trigger] self.lists@[j],
                        ) by {
                            if j < i as int {
                                assert(self.lists@[j] == ol[j]);
                            } else {
                                assert(self.lists@[j] == ol[j + 1]);
                            }
                        }
                        assert forall|a: int, b: int|
                            0 <= a < b < self.lists@.len() implies self.lists@[a].key@
                            != self.lists@[b].key@ by {
                            let a2 = if a < i as int {
                                a
                            } else {
                                a + 1
                            };
                            let b2 = if b < i as int {
                                b
                            } else {
                                b + 1
                            };
                            assert(self.lists@[a] == ol[a2] && self.lists@[b] == ol[b2]);
                        }
                        assert forall|k2: Seq<u8>| true implies lookup(self.lists@, k2) == (if k2
                            == key@ {
                            None::<Seq<Seq<u8>>>
                        } else {
                            lookup(ol, k2)
                        }) by {
                            lemma_lookup_remove(ol, i as int, k2);
                        }
                        assert(ov.len() == 1);
                        assert(ov.drop_first().len() == 0);
                    }
                    Ok(v)
                } else {
                    let ghost grec = rec;
                    self.lists.insert(i, rec);
                    proof {
                        assert(self.lists@ =~= ol.update(i as int, grec));
                        assert forall|j: int| 0 <= j < self.lists@.len() implies wf_record(
                            #[trigger] self.lists@[j],
                        ) by {
                            if j != i as int {
                                assert(self.lists@[j] == ol[j]);
                            }
                        }
                        assert forall|a: int, b: int|
                            0 <= a < b < self.lists@.len() implies self.lists@[a].key@
                            != self.lists@[b].key@ by {
                            assert(self.lists@[a].key@ == ol[a].key@ && self.lists@[b].key@
                                == ol[b].key@);
                        }
                        assert forall|k2: Seq<u8>| true implies lookup(self.lists@, k2) == (if k2
                            == grec.key@ {
                            Some(chain_view(grec.nodes@))
                        } else {
                            lookup(ol, k2)
                        }) by {
                            lemma_lookup_update(ol, i as int, grec, k2);
                        }
                        lemma_chain_view_len_ge(grec.nodes@);
                        assert(norm(ov.drop_first()) == Some(chain_view(grec.nodes@)));
                    }
                    Ok(v)
                }
            },
        }
    }

    /// Remove and return the last element; the mirror of `lpop`.
    #[verifier::rlimit(100)]
    #[verifier::spinoff_prover]
    pub fn rpop(&mut self, key: &Vec<u8>) -> (r: Result<Vec<u8>, Error>)
        requires
            old(self).wf(),
        ensures
            final(self).wf(),
            match r {
                Ok(v) => {
                    &&& old(self).list_of(key@) is Some
                    &&& Some(v@) == m_rpop_value(old(self).list_of(key@))
                    &&& final(self).list_of(key@) == m_rpop_rest(old(self).list_of(key@))
                    &&& (forall|k2: Seq<u8>|
                        k2 != key@ ==> final(self).list_of(k2) == old(self).list_of(k2))
                },
                Err(e) => {
                    &&& e == Error::NotFound
                    &&& old(self).list_of(key@) is None
                    &&& *final(self) == *old(self)
                },
            },
    {
        match self.find_list(key) {
            None => Err(Error::NotFound),
            Some(i) => {
                let ghost ol = self.lists@;
                let ghost ov = chain_view(ol[i as int].nodes@);
                let mut rec = self.lists.remove(i);
                proof {
                    assert(wf_record(rec));
                    lemma_chain_view_len_ge(rec.nodes@);
                }
                let v = rec.pop_back();
                if rec.nodes.len() == 0 {
                    proof {
                        assert(self.lists@ =~= ol.remove(i as int));
                        assert forall|j: int| 0 <= j < self.lists@.len() implies wf_record(
                            #[trigger] self.lists@[j],
                        ) by {
                            if j < i as int {
                                assert(self.lists@[j] == ol[j]);
                            } else {
                                assert(self.lists@[j] == ol[j + 1]);
                            }
                        }
                        assert forall|a: int, b: int|
                            0 <= a < b < self.lists@.len() implies self.lists@[a].key@
                            != self.lists@[b].key@ by {
                            let a2 = if a < i as int {
                                a
                            } else {
                                a + 1
                            };
                            let b2 = if b < i as int {
                                b
                            } else {
                                b + 1
                            };
                            assert(self.lists@[a] == ol[a2] && self.lists@[b] == ol[b2]);
                        }
                        assert forall|k2: Seq<u8>| true implies lookup(self.lists@, k2) == (if k2
                            == key@ {
                            None::<Seq<Seq<u8>>>
                        } else {
                            lookup(ol, k2)
                        }) by {
                            lemma_lookup_remove(ol, i as int, k2);
                        }
                        assert(ov.len() == 1);
                        assert(ov.drop_last().len() == 0);
                    }
                    Ok(v)
                } else {
                    let ghost grec = rec;
                    self.lists.insert(i, rec);
                    proof {
                        assert(self.lists@ =~= ol.update(i as int, grec));
                        assert forall|j: int| 0 <= j < self.lists@.len() implies wf_record(
                            #[trigger] self.lists@[j],
                        ) by {
                            if j != i as int {
                                assert(self.lists@[j] == ol[j]);
                            }
                        }
                        assert forall|a: int, b: int|
                            0 <= a < b < self.lists@.len() implies self.lists@[a].key@
                            != self.lists@[b].key@ by {
                            assert(self.lists@[a].key@ == ol[a].key@ && self.lists@[b].key@
                                == ol[b].key@);
                        }
                        assert forall|k2: Seq<u8>| true implies lookup(self.lists@, k2) == (if k2
                            == grec.key@ {
                            Some(chain_view(grec.nodes@))
                        } else {
                            lookup(ol, k2)
                        }) by {
                            lemma_lookup_update(ol, i as int, grec, k2);
                        }
                        lemma_chain_view_len_ge(grec.nodes@);
                        assert(norm(ov.drop_last()) == Some(chain_view(grec.nodes@)));
                    }
                    Ok(v)
                }
            },
        }
    }
}

/// Node index and local offset of the element at global position `target`:
/// the walk from the head that accumulates a running per-node offset.
#[verifier::rlimit(100)]
#[verifier::spinoff_prover]
fn locate(rec: &ListRecord, target: u64) -> (r: (usize, usize))
    requires
        wf_record(*rec),
        target < chain_view(rec.nodes@).len(),
    ensures
        r.0 < rec.nodes@.len(),
        r.1 < rec.nodes@[r.0 as int].block@.len(),
        chain_view(rec.nodes@)[target as int] == rec.nodes@[r.0 as int].block@[r.1 as int],
        chain_view(rec.nodes@.take(r.0 as int)).len() + r.1 == target,
{
    let ghost ns = rec.nodes@;
    let ghost total = chain_view(ns);
    let mut ni: usize = 0;
    let mut off: u64 = 0;
    proof {
        assert(ns.take(0) =~= Seq::<ListNode>::empty());
        assert(total.len() <= u32::MAX);
        assert(forall|t: int| 0 <= t < ns.len() ==> wf_node(#[trigger] ns[t]));
    }
    while off + (rec.nodes[ni].element_count as u64) <= target
        invariant
            ns == rec.nodes@,
            total == chain_view(ns),
            forall|t: int| 0 <= t < ns.len() ==> wf_node(#[trigger] ns[t]),
            target < total.len(),
            total.len() <= u32::MAX,
            ns.len() <= u32::MAX,
            ni < ns.len(),
            off as nat == chain_view(ns.take(ni as int)).len(),
            off <= target,
        decreases ns.len() - ni,
    {
        let ghost no = ni as int;
        proof {
            assert(wf_node(ns[no]));
            assert(ns.take(no + 1) =~= ns.take(no) + seq![ns[no]]);
            lemma_chain_view_concat(ns.take(no), seq![ns[no]]);
            lemma_chain_view_singleton(ns[no]);
        }
        off = off + rec.nodes[ni].element_count as u64;
        ni += 1;
        proof {
            assert(off as nat == chain_view(ns.take(no + 1)).len());
            if ni as int == ns.len() {
                assert(ns.take(no + 1) =~= ns);
            }
            assert((ni as int) < ns.len());
        }
    }
    let li = (target - off) as usize;
    proof {
        let no = ni as int;
        assert(wf_node(ns[no]));
        lemma_chain_view_split(ns, no);
        lemma_chain_view_skip_unfold(ns, no);
        assert(total[target as int] == (ns[no].block@ + chain_view(ns.skip(no + 1)))[target
            - off]);
        assert(li < ns[no].block@.len());
        assert(total[target as int] == ns[no].block@[li as int]);
    }
    (ni, li)
}

/// Where a walk that has covered `off` elements stands inside the window
/// `[lo, hi]`: everything of the window up to `off`, clamped to its ends.
pub open spec fn cursor(off: int, lo: int, hi: int) -> int {
    if off < lo {
        lo
    } else if off <= hi {
        off
    } else {
        hi + 1
    }
}

impl ListEngine {
    /// The element at a signed position: negative counts from the tail.
    /// Absent list or a position resolving outside it: not found.
    pub fn lindex(&self, key: &Vec<u8>, index: i32) -> (r: Result<Vec<u8>, Error>)
        requires
            self.wf(),
        ensures
            match r {
                Ok(v) => m_lindex(self.list_of(key@), index as int) == Some(v@),
                Err(e) => e == Error::NotFound && m_lindex(self.list_of(key@), index as int)
                    == None::<Seq<u8>>,
            },
    {
        match self.find_list(key) {
            None => Err(Error::NotFound),
            Some(i) => {
                let rec = &self.lists[i];
                let len = rec.head.element_count;
                let r64: i64 = if index >= 0 {
                    index as i64
                } else {
                    len as i64 + index as i64
                };
                proof {
                    assert(r64 == resolve_index(chain_view(rec.nodes@).len() as int, index as int));
                }
                if r64 < 0 || r64 >= len as i64 {
                    return Err(Error::NotFound);
                }
                let target = r64 as u64;
                let (ni, li) = locate(rec, target);
                let v = clone_bytes(rec.nodes[ni].block.get(li));
                Ok(v)
            },
        }
    }

    /// The inclusive window `[start, stop]` of the list, endpoints resolved
    /// against its length and clamped; head-to-tail order. Touches only the
    /// nodes whose span intersects the window.
    #[verifier::rlimit(100)]
    #[verifier::spinoff_prover]
    pub fn lrange(&self, key: &Vec<u8>, start: i32, stop: i32) -> (out: Vec<Vec<u8>>)
        requires
            self.wf(),
        ensures
            out@.map_values(|e: Vec<u8>| e@) == m_lrange(
                self.list_of(key@),
                start as int,
                stop as int,
            ),
    {
        let mut out: Vec<Vec<u8>> = Vec::new();
        let found = self.find_list(key);
        match found {
            None => {
                proof {
                    assert(out@.map_values(|e: Vec<u8>| e@) =~= m_lrange(
                        self.list_of(key@),
                        start as int,
                        stop as int,
                    ));
                }
                out
            },
            Some(i) => {
                let rec = &self.lists[i];
                let ghost ns = rec.nodes@;
                let ghost view = chain_view(ns);
                let len = rec.head.element_count;
                let a: i64 = if start >= 0 {
                    start as i64
                } else {
                    len as i64 + start as i64
                };
                let b: i64 = if stop >= 0 {
                    stop as i64
                } else {
                    len as i64 + stop as i64
                };
                let lo64: i64 = if a > 0 {
                    a
                } else {
                    0
                };
                let hi64: i64 = if b < len as i64 - 1 {
                    b
                } else {
                    len as i64 - 1
                };
                proof {
                    assert(a == resolve_index(view.len() as int, start as int));
                    assert(b == resolve_index(view.len() as int, stop as int));
                    assert(view.len() > 0);
                }
                if a > b || lo64 > hi64 {
                    proof {
                        assert(out@.map_values(|e: Vec<u8>| e@) =~= m_lrange(
                            self.list_of(key@),
                            start as int,
                            stop as int,
                        ));
                    }
                    return out;
                }
                let lo = lo64 as u64;
                let hi = hi64 as u64;
                proof {
                    assert(lo <= hi < view.len());
                    assert(m_lrange(self.list_of(key@), start as int, stop as int) == view.subrange(
                        lo as int,
                        hi + 1,
                    ));
                    assert(ns.take(0) =~= Seq::<ListNode>::empty());
                    assert(view.len() <= u32::MAX);
                }
                let mut ni: usize = 0;
                let mut off: u64 = 0;
                let mut done = false;
                while ni < rec.nodes.len() && !done
                    invariant
                        wf_record(*rec),
                        ns == rec.nodes@,
                        view == chain_view(ns),
                        view.len() <= u32::MAX,
                        lo <= hi < view.len(),
                        ni <= ns.len(),
                        off as nat == chain_view(ns.take(ni as int)).len(),
                        !done ==> off <= hi,
                        out@.map_values(|e: Vec<u8>| e@) == view.subrange(
                            lo as int,
                            if done {
                                hi + 1
                            } else {
                                cursor(off as int, lo as int, hi as int)
                            },
                        ),
                    decreases ns.len() - ni,
                {
                    let ghost no = ni as int;
                    let ghost pre = out@.map_values(|e: Vec<u8>| e@);
                    let blen = rec.nodes[ni].element_count as u64;
                    proof {
                        assert(wf_node(ns[no]));
                        lemma_chain_view_split(ns, no);
                        lemma_chain_view_skip_unfold(ns, no);
                        assert(ns.take(no + 1) =~= ns.take(no) + seq![ns[no]]);
                        lemma_chain_view_concat(ns.take(no), seq![ns[no]]);
                        lemma_chain_view_singleton(ns[no]);
                    }
                    match intersect_window(blen, off, lo, hi) {
                        Some(w) => {
                            let mut part = rec.nodes[ni].block.range(
                                w.0 as usize,
                                w.1 as usize,
                            );
                            let ghost pv = part@.map_values(|e: Vec<u8>| e@);
                            out.append(&mut part);
                            proof {
                                assert(out@.map_values(|e: Vec<u8>| e@) =~= pre + pv);
                                assert(pv =~= view.subrange(off + w.0, off + w.1 + 1));
                                assert(pre + pv =~= view.subrange(
                                    lo as int,
                                    off + w.1 + 1,
                                ));
                            }
                        },
                        None => {
                            proof {
                                assert(off + blen <= lo);
                            }
                        },
                    }
                    if off + blen > hi {
                        done = true;
                        proof {
                            assert(out@.map_values(|e: Vec<u8>| e@) =~= view.subrange(
                                lo as int,
                                hi + 1,
                            ));
                        }
                    }
                    off = off + blen;
                    ni += 1;
                    proof {
                        assert(off as nat == chain_view(ns.take(ni as int)).len());
                    }
                }
                proof {
                    if !done {
                        assert(ni as int == ns.len());
                        assert(ns.take(ni as int) =~= ns);
                        assert(off as nat == view.len());
                        assert(cursor(off as int, lo as int, hi as int) == hi + 1);
                    }
                }
                out
            },
        }
    }
}

impl ListRecord {
    /// One step of removal by value at node `ni`: scan its block under the
    /// remaining budget and, if that empties it, splice the node out (or
    /// empty the record when it was the only node). Returns how many
    /// elements left, and whether the node did.
    #[verifier::rlimit(100)]
    #[verifier::spinoff_prover]
    fn rem_node_front(&mut self, ni: usize, budget: Option<u32>, v: &Vec<u8>) -> (res: (u32, bool))
        requires
            ni < old(self).nodes@.len(),
            linked(old(self).nodes@),
            ends_ok(old(self).head, old(self).nodes@),
            old(self).head.node_count as nat == old(self).nodes@.len(),
            forall|q: int|
                0 <= q < old(self).nodes@.len() ==> wf_node(#[trigger] old(self).nodes@[q]),
        ensures
            ({
                let ns = old(self).nodes@;
                let b0 = ns[ni as int].block@;
                let rb = rem_fwd(b0, bspec(budget), v@);
                &&& res.0 as nat == cnt_fwd(b0, bspec(budget), v@)
                &&& res.1 == (rb.len() == 0)
                &&& final(self).key == old(self).key
                &&& final(self).head.element_count == old(self).head.element_count
                &&& blocks_eq(
                    final(self).nodes@.take(ni as int),
                    ns.take(ni as int),
                )
                &&& (if rb.len() == 0 {
                    &&& final(self).nodes@.len() == ns.len() - 1
                    &&& blocks_eq(final(self).nodes@.skip(ni as int), ns.skip(ni + 1))
                } else {
                    &&& final(self).nodes@.len() == ns.len()
                    &&& blocks_eq(final(self).nodes@.skip(ni + 1), ns.skip(ni + 1))
                    &&& final(self).nodes@[ni as int].block@ == rb
                    &&& final(self).nodes@[ni as int].element_count as nat == rb.len()
                })
                &&& (final(self).nodes@.len() > 0 ==> linked(final(self).nodes@) && ends_ok(
                    final(self).head,
                    final(self).nodes@,
                ))
                &&& final(self).head.node_count as nat == final(self).nodes@.len()
                &&& (final(self).nodes@.len() == 0 ==> ns.len() == 1 && rb.len() == 0)
                &&& (forall|q: int|
                    0 <= q < final(self).nodes@.len() ==> wf_node(#[trigger] final(self).nodes@[q]))
            }),
    {
        let ghost pre_nodes = self.nodes@;
        let mut nd = self.nodes.remove(ni);
        let d = nd.block.rem_left(budget, v);
        proof {
            assert(wf_node(pre_nodes[ni as int]));
        }
        if nd.block.len() == 0 {
            if self.nodes.len() == 0 {
                self.head.node_count = 0;
                self.head.left = None;
                self.head.right = None;
                proof {
                    assert(self.nodes@ =~= Seq::<ListNode>::empty());
                    assert(self.nodes@.take(0) =~= Seq::<ListNode>::empty());
                    assert(pre_nodes.take(0) =~= Seq::<ListNode>::empty());
                    assert(self.nodes@.skip(0) =~= Seq::<ListNode>::empty());
                    assert(pre_nodes.skip(1) =~= Seq::<ListNode>::empty());
                }
                (d, true)
            } else {
                self.nodes.insert(ni, nd);
                let ghost mid = self.nodes@;
                proof {
                    assert(mid =~= pre_nodes.update(ni as int, mid[ni as int]));
                    lemma_linked_update_same(pre_nodes, mid, ni as int);
                    assert(ends_ok(self.head, mid)) by {
                        assert(mid[0].key == pre_nodes[0].key);
                        assert(mid.last().key == pre_nodes.last().key);
                    }
                    assert forall|q: int| 0 <= q < mid.len() && q != ni as int implies wf_node(
                        #[trigger] mid[q],
                    ) by {
                        assert(mid[q] == pre_nodes[q]);
                    }
                }
                self.splice_out(ni);
                proof {
                    assert(blocks_eq(self.nodes@.take(ni as int), pre_nodes.take(ni as int))) by {
                        assert forall|t: int|
                            0 <= t < ni as int implies (#[trigger] self.nodes@.take(
                            ni as int,
                        )[t]).block == pre_nodes.take(ni as int)[t].block && self.nodes@.take(
                            ni as int,
                        )[t].element_count == pre_nodes.take(ni as int)[t].element_count by {
                            assert(self.nodes@[t].block == mid[t].block);
                            assert(self.nodes@[t].element_count == mid[t].element_count);
                            assert(mid[t] == pre_nodes[t]);
                        }
                    }
                    assert(blocks_eq(self.nodes@.skip(ni as int), pre_nodes.skip(ni + 1))) by {
                        assert forall|t: int|
                            0 <= t < self.nodes@.len() - ni implies (#[trigger] self.nodes@.skip(
                            ni as int,
                        )[t]).block == pre_nodes.skip(ni + 1)[t].block && self.nodes@.skip(
                            ni as int,
                        )[t].element_count == pre_nodes.skip(ni + 1)[t].element_count by {
                            assert(self.nodes@.skip(ni as int)[t] == self.nodes@[ni + t]);
                            assert(self.nodes@[ni + t].block == mid[ni + t + 1].block);
                            assert(self.nodes@[ni + t].element_count == mid[ni + t
                                + 1].element_count);
                            assert(mid[ni + t + 1] == pre_nodes[ni + t + 1]);
                            assert(pre_nodes.skip(ni + 1)[t] == pre_nodes[ni + 1 + t]);
                        }
                    }
                    assert forall|q: int| 0 <= q < self.nodes@.len() implies wf_node(
                        #[trigger] self.nodes@[q],
                    ) by {
                        if q < ni as int {
                            assert(self.nodes@[q].block == mid[q].block);
                            assert(self.nodes@[q].element_count == mid[q].element_count);
                            assert(mid[q] == pre_nodes[q]);
                            assert(wf_node(pre_nodes[q]));
                        } else {
                            assert(self.nodes@[q].block == mid[q + 1].block);
                            assert(self.nodes@[q].element_count == mid[q + 1].element_count);
                            assert(mid[q + 1] == pre_nodes[q + 1]);
                            assert(wf_node(pre_nodes[q + 1]));
                        }
                    }
                }
                (d, true)
            }
        } else {
            let bl = nd.block.len();
            proof {
                lemma_cnt_fwd_le_len(pre_nodes[ni as int].block@, bspec(budget), v@);
            }
            nd.element_count = bl as u32;
            let ghost nd2 = nd;
            self.nodes.insert(ni, nd);
            proof {
                let ns2 = self.nodes@;
                assert(ns2 =~= pre_nodes.update(ni as int, nd2));
                lemma_linked_update_same(pre_nodes, ns2, ni as int);
                assert(ends_ok(self.head, ns2)) by {
                    assert(ns2[0].key == pre_nodes[0].key);
                    assert(ns2.last().key == pre_nodes.last().key);
                }
                assert(wf_node(nd2));
                assert(blocks_eq(ns2.take(ni as int), pre_nodes.take(ni as int))) by {
                    assert forall|t: int|
                        0 <= t < ni as int implies (#[trigger] ns2.take(ni as int)[t]).block
                        == pre_nodes.take(ni as int)[t].block && ns2.take(
                        ni as int,
                    )[t].element_count == pre_nodes.take(ni as int)[t].element_count by {
                        assert(ns2[t] == pre_nodes[t]);
                    }
                }
                assert(blocks_eq(ns2.skip(ni + 1), pre_nodes.skip(ni + 1))) by {
                    assert forall|t: int|
                        0 <= t < ns2.len() - (ni + 1) implies (#[trigger] ns2.skip(ni
                        + 1)[t]).block == pre_nodes.skip(ni + 1)[t].block && ns2.skip(ni
                        + 1)[t].element_count == pre_nodes.skip(ni + 1)[t].element_count by {
                        assert(ns2.skip(ni + 1)[t] == ns2[ni + 1 + t]);
                        assert(ns2[ni + 1 + t] == pre_nodes[ni + 1 + t]);
                        assert(pre_nodes.skip(ni + 1)[t] == pre_nodes[ni + 1 + t]);
                    }
                }
                assert forall|q: int| 0 <= q < ns2.len() implies wf_node(
                    #[trigger] ns2[q],
                ) by {
                    if q != ni as int {
                        assert(ns2[q] == pre_nodes[q]);
                    }
                }
            }
            (d, false)
        }
    }

    /// The tail-to-head mirror of `rem_node_front`: scan node `ni`'s block
    /// from its right end under the remaining budget; splice it out if it
    /// empties.
    #[verifier::rlimit(100)]
    #[verifier::spinoff_prover]
    fn rem_node_back(&mut self, ni: usize, budget: Option<u32>, v: &Vec<u8>) -> (res: (u32, bool))
        requires
            ni < old(self).nodes@.len(),
            linked(old(self).nodes@),
            ends_ok(old(self).head, old(self).nodes@),
            old(self).head.node_count as nat == old(self).nodes@.len(),
            forall|q: int|
                0 <= q < old(self).nodes@.len() ==> wf_node(#[trigger] old(self).nodes@[q]),
        ensures
            ({
                let ns = old(self).nodes@;
                let b0 = ns[ni as int].block@;
                let rb = rem_bwd(b0, bspec(budget), v@);
                &&& res.0 as nat == cnt_bwd(b0, bspec(budget), v@)
                &&& res.1 == (rb.len() == 0)
                &&& final(self).key == old(self).key
                &&& final(self).head.element_count == old(self).head.element_count
                &&& blocks_eq(
                    final(self).nodes@.take(ni as int),
                    ns.take(ni as int),
                )
                &&& (if rb.len() == 0 {
                    &&& final(self).nodes@.len() == ns.len() - 1
                    &&& blocks_eq(final(self).nodes@.skip(ni as int), ns.skip(ni + 1))
                } else {
                    &&& final(self).nodes@.len() == ns.len()
                    &&& blocks_eq(final(self).nodes@.skip(ni + 1), ns.skip(ni + 1))
                    &&& final(self).nodes@[ni as int].block@ == rb
                    &&& final(self).nodes@[ni as int].element_count as nat == rb.len()
                })
                &&& (final(self).nodes@.len() > 0 ==> linked(final(self).nodes@) && ends_ok(
                    final(self).head,
                    final(self).nodes@,
                ))
                &&& final(self).head.node_count as nat == final(self).nodes@.len()
                &&& (final(self).nodes@.len() == 0 ==> ns.len() == 1 && rb.len() == 0)
                &&& (forall|q: int|
                    0 <= q < final(self).nodes@.len() ==> wf_node(#[trigger] final(self).nodes@[q]))
            }),
    {
        let ghost pre_nodes = self.nodes@;
        let mut nd = self.nodes.remove(ni);
        let d = nd.block.rem_right(budget, v);
        proof {
            assert(wf_node(pre_nodes[ni as int]));
        }
        if nd.block.len() == 0 {
            if self.nodes.len() == 0 {
                self.head.node_count = 0;
                self.head.left = None;
                self.head.right = None;
                proof {
                    assert(self.nodes@ =~= Seq::<ListNode>::empty());
                    assert(self.nodes@.take(0) =~= Seq::<ListNode>::empty());
                    assert(pre_nodes.take(0) =~= Seq::<ListNode>::empty());
                    assert(self.nodes@.skip(0) =~= Seq::<ListNode>::empty());
                    assert(pre_nodes.skip(1) =~= Seq::<ListNode>::empty());
                }
                (d, true)
            } else {
                self.nodes.insert(ni, nd);
                let ghost mid = self.nodes@;
                proof {
                    assert(mid =~= pre_nodes.update(ni as int, mid[ni as int]));
                    lemma_linked_update_same(pre_nodes, mid, ni as int);
                    assert(ends_ok(self.head, mid)) by {
                        assert(mid[0].key == pre_nodes[0].key);
                        assert(mid.last().key == pre_nodes.last().key);
                    }
                    assert forall|q: int| 0 <= q < mid.len() && q != ni as int implies wf_node(
                        #[trigger] mid[q],
                    ) by {
                        assert(mid[q] == pre_nodes[q]);
                    }
                }
                self.splice_out(ni);
                proof {
                    assert(blocks_eq(self.nodes@.take(ni as int), pre_nodes.take(ni as int))) by {
                        assert forall|t: int|
                            0 <= t < ni as int implies (#[trigger] self.nodes@.take(
                            ni as int,
                        )[t]).block == pre_nodes.take(ni as int)[t].block && self.nodes@.take(
                            ni as int,
                        )[t].element_count == pre_nodes.take(ni as int)[t].element_count by {
                            assert(self.nodes@[t].block == mid[t].block);
                            assert(self.nodes@[t].element_count == mid[t].element_count);
                            assert(mid[t] == pre_nodes[t]);
                        }
                    }
                    assert(blocks_eq(self.nodes@.skip(ni as int), pre_nodes.skip(ni + 1))) by {
                        assert forall|t: int|
                            0 <= t < self.nodes@.len() - ni implies (#[trigger] self.nodes@.skip(
                            ni as int,
                        )[t]).block == pre_nodes.skip(ni + 1)[t].block && self.nodes@.skip(
                            ni as int,
                        )[t].element_count == pre_nodes.skip(ni + 1)[t].element_count by {
                            assert(self.nodes@.skip(ni as int)[t] == self.nodes@[ni + t]);
                            assert(self.nodes@[ni + t].block == mid[ni + t + 1].block);
                            assert(self.nodes@[ni + t].element_count == mid[ni + t
                                + 1].element_count);
                            assert(mid[ni + t + 1] == pre_nodes[ni + t + 1]);
                            assert(pre_nodes.skip(ni + 1)[t] == pre_nodes[ni + 1 + t]);
                        }
                    }
                    assert forall|q: int| 0 <= q < self.nodes@.len() implies wf_node(
                        #[trigger] self.nodes@[q],
                    ) by {
                        if q < ni as int {
                            assert(self.nodes@[q].block == mid[q].block);
                            assert(self.nodes@[q].element_count == mid[q].element_count);
                            assert(mid[q] == pre_nodes[q]);
                            assert(wf_node(pre_nodes[q]));
                        } else {
                            assert(self.nodes@[q].block == mid[q + 1].block);
                            assert(self.nodes@[q].element_count == mid[q + 1].element_count);
                            assert(mid[q + 1] == pre_nodes[q + 1]);
                            assert(wf_node(pre_nodes[q + 1]));
                        }
                    }
                }
                (d, true)
            }
        } else {
            let bl = nd.block.len();
            proof {
                lemma_cnt_bwd_le_len(pre_nodes[ni as int].block@, bspec(budget), v@);
            }
            nd.element_count = bl as u32;
            let ghost nd2 = nd;
            self.nodes.insert(ni, nd);
            proof {
                let ns2 = self.nodes@;
                assert(ns2 =~= pre_nodes.update(ni as int, nd2));
                lemma_linked_update_same(pre_nodes, ns2, ni as int);
                assert(ends_ok(self.head, ns2)) by {
                    assert(ns2[0].key == pre_nodes[0].key);
                    assert(ns2.last().key == pre_nodes.last().key);
                }
                assert(wf_node(nd2));
                assert(blocks_eq(ns2.take(ni as int), pre_nodes.take(ni as int))) by {
                    assert forall|t: int|
                        0 <= t < ni as int implies (#[trigger] ns2.take(ni as int)[t]).block
                        == pre_nodes.take(ni as int)[t].block && ns2.take(
                        ni as int,
                    )[t].element_count == pre_nodes.take(ni as int)[t].element_count by {
                        assert(ns2[t] == pre_nodes[t]);
                    }
                }
                assert(blocks_eq(ns2.skip(ni + 1), pre_nodes.skip(ni + 1))) by {
                    assert forall|t: int|
                        0 <= t < ns2.len() - (ni + 1) implies (#[trigger] ns2.skip(ni
                        + 1)[t]).block == pre_nodes.skip(ni + 1)[t].block && ns2.skip(ni
                        + 1)[t].element_count == pre_nodes.skip(ni + 1)[t].element_count by {
                        assert(ns2.skip(ni + 1)[t] == ns2[ni + 1 + t]);
                        assert(ns2[ni + 1 + t] == pre_nodes[ni + 1 + t]);
                        assert(pre_nodes.skip(ni + 1)[t] == pre_nodes[ni + 1 + t]);
                    }
                }
                assert forall|q: int| 0 <= q < ns2.len() implies wf_node(
                    #[trigger] ns2[q],
                ) by {
                    if q != ni as int {
                        assert(ns2[q] == pre_nodes[q]);
                    }
                }
            }
            (d, false)
        }
    }

    /// The head-to-tail removal walk, one node per call: processes node
    /// `ni`, then recurses on the rest of the chain with the budget that is
    /// left. `j` tracks how many of the original nodes have been processed.
    #[verifier::rlimit(100)]
    #[verifier::spinoff_prover]
    fn rem_walk_fwd(
        &mut self,
        ni: usize,
        k: Option<u32>,
        removed: u32,
        Ghost(j): Ghost<int>,
        Ghost(orig): Ghost<Seq<ListNode>>,
        v: &Vec<u8>,
    ) -> (n: u32)
        requires
            0 <= j <= orig.len(),
            ni <= old(self).nodes@.len(),
            orig.len() <= u32::MAX,
            chain_view(orig).len() <= u32::MAX,
            blocks_eq(old(self).nodes@.skip(ni as int), orig.skip(j)),
            chain_view(old(self).nodes@.take(ni as int)) == rem_fwd(
                chain_view(orig.take(j)),
                bspec(k),
                v@,
            ),
            removed as nat == cnt_fwd(chain_view(orig.take(j)), bspec(k), v@),
            match k {
                Some(b) => removed <= b,
                None => true,
            },
            old(self).nodes@.len() > 0 ==> linked(old(self).nodes@) && ends_ok(
                old(self).head,
                old(self).nodes@,
            ),
            forall|q: int|
                0 <= q < old(self).nodes@.len() ==> wf_node(#[trigger] old(self).nodes@[q]),
            old(self).head.node_count as nat == old(self).nodes@.len(),
        ensures
            n as nat == cnt_fwd(chain_view(orig), bspec(k), v@),
            final(self).key == old(self).key,
            final(self).head.element_count == old(self).head.element_count,
            final(self).nodes@.len() > 0 ==> linked(final(self).nodes@) && ends_ok(
                final(self).head,
                final(self).nodes@,
            ) && chain_view(final(self).nodes@) == rem_fwd(chain_view(orig), bspec(k), v@)
                && final(self).head.node_count as nat == final(self).nodes@.len() && (forall|
                q: int,
            |
                0 <= q < final(self).nodes@.len() ==> wf_node(#[trigger] final(self).nodes@[q])),
            final(self).nodes@.len() == 0 ==> rem_fwd(chain_view(orig), bspec(k), v@).len() == 0,
        decreases orig.len() - j,
    {
        let ghost k0 = bspec(k);
        let more = match k {
            Some(b) => removed < b,
            None => true,
        };
        if ni >= self.nodes.len() || !more {
            proof {
                if ni >= self.nodes.len() {
                    assert(j == orig.len());
                    assert(orig.take(j) =~= orig);
                } else {
                    lemma_chain_view_split(orig, j);
                    assert(orig.take(j) + orig.skip(j) =~= orig);
                    lemma_rem_fwd_concat(
                        chain_view(orig.take(j)),
                        chain_view(orig.skip(j)),
                        k0,
                        v@,
                    );
                    assert(budget_sub(k0, cnt_fwd(chain_view(orig.take(j)), k0, v@)) == Some(
                        0nat,
                    ));
                    assert(rem_fwd(chain_view(orig.skip(j)), Some(0nat), v@) == chain_view(
                        orig.skip(j),
                    ));
                }
                if self.nodes@.len() > 0 {
                    lemma_chain_view_split(self.nodes@, ni as int);
                    lemma_blocks_eq_view(self.nodes@.skip(ni as int), orig.skip(j));
                    if ni as int == self.nodes@.len() {
                        assert(self.nodes@.take(ni as int) =~= self.nodes@);
                    }
                }
            }
            return removed;
        }
        let ghost pre_nodes = self.nodes@;
        let rem_budget: Option<u32> = match k {
            Some(b) => Some(b - removed),
            None => None,
        };
        proof {
            assert(pre_nodes.skip(ni as int)[0] == pre_nodes[ni as int]);
            assert(j < orig.len());
            assert(orig.skip(j)[0] == orig[j]);
            assert(pre_nodes[ni as int].block == orig[j].block);
            assert(wf_node(pre_nodes[ni as int]));
            assert(orig.take(j + 1) =~= orig.take(j) + seq![orig[j]]);
            lemma_chain_view_concat(orig.take(j), seq![orig[j]]);
            lemma_chain_view_singleton(orig[j]);
            lemma_rem_fwd_concat(chain_view(orig.take(j)), orig[j].block@, k0, v@);
            assert(budget_sub(k0, cnt_fwd(chain_view(orig.take(j)), k0, v@)) == bspec(rem_budget));
        }
        let res = self.rem_node_front(ni, rem_budget, v);
        let d = res.0;
        let gone = res.1;
        proof {
            lemma_cnt_fwd_le_len(chain_view(orig.take(j + 1)), k0, v@);
            lemma_chain_view_split(orig, j + 1);
            if k is Some {
                lemma_cnt_fwd_le_budget(chain_view(orig.take(j + 1)), k.unwrap() as nat, v@);
            }
            let rb = rem_fwd(orig[j].block@, bspec(rem_budget), v@);
            lemma_blocks_eq_view(self.nodes@.take(ni as int), pre_nodes.take(ni as int));
            assert(pre_nodes.skip(ni as int).drop_first() =~= pre_nodes.skip(ni + 1));
            assert(orig.skip(j).drop_first() =~= orig.skip(j + 1));
            if gone {
                assert(chain_view(self.nodes@.take(ni as int)) == rem_fwd(
                    chain_view(orig.take(j + 1)),
                    k0,
                    v@,
                )) by {
                    assert(rb.len() == 0);
                    assert(rem_fwd(chain_view(orig.take(j)), k0, v@) + rb =~= rem_fwd(
                        chain_view(orig.take(j)),
                        k0,
                        v@,
                    ));
                }
                crate::chain::lemma_blocks_eq_tail(
                    pre_nodes.skip(ni as int),
                    orig.skip(j),
                    self.nodes@.skip(ni as int),
                );
            } else {
                let ns2 = self.nodes@;
                assert(ns2.take(ni + 1) =~= ns2.take(ni as int) + seq![ns2[ni as int]]);
                lemma_chain_view_concat(ns2.take(ni as int), seq![ns2[ni as int]]);
                lemma_chain_view_singleton(ns2[ni as int]);
                assert(chain_view(ns2.take(ni + 1)) == rem_fwd(
                    chain_view(orig.take(j + 1)),
                    k0,
                    v@,
                ));
                crate::chain::lemma_blocks_eq_tail(
                    pre_nodes.skip(ni as int),
                    orig.skip(j),
                    ns2.skip(ni + 1),
                );
            }
        }
        let ni2 = if gone {
            ni
        } else {
            ni + 1
        };
        self.rem_walk_fwd(ni2, k, removed + d, Ghost(j + 1), Ghost(orig), v)
    }

    /// Remove, scanning node by node from the head, up to `k` elements equal
    /// to `v` (`None`: no budget). When the whole chain empties the caller
    /// deletes the record.
    #[verifier::rlimit(100)]
    #[verifier::spinoff_prover]
    fn rem_scan_fwd(&mut self, k: Option<u32>, v: &Vec<u8>) -> (n: u32)
        requires
            wf_record(*old(self)),
        ensures
            ({
                let ov = chain_view(old(self).nodes@);
                let k0 = bspec(k);
                &&& n as nat == cnt_fwd(ov, k0, v@)
                &&& final(self).key == old(self).key
                &&& (final(self).nodes@.len() > 0 ==> wf_record(*final(self)) && chain_view(
                    final(self).nodes@,
                ) == rem_fwd(ov, k0, v@))
                &&& (final(self).nodes@.len() == 0 ==> rem_fwd(ov, k0, v@).len() == 0)
            }),
    {
        let ghost orig = self.nodes@;
        let ghost ov = chain_view(orig);
        let ghost k0 = bspec(k);
        proof {
            assert(orig.take(0) =~= Seq::<ListNode>::empty());
            assert(chain_view(orig.take(0)) =~= Seq::<Seq<u8>>::empty());
            assert(rem_fwd(Seq::<Seq<u8>>::empty(), k0, v@).len() == 0);
            assert(cnt_fwd(Seq::<Seq<u8>>::empty(), k0, v@) == 0);
            assert(self.nodes@.skip(0) =~= self.nodes@);
            assert(orig.skip(0) =~= orig);
            assert(self.nodes@.take(0) =~= Seq::<ListNode>::empty());
        }
        let n = self.rem_walk_fwd(0, k, 0, Ghost(0int), Ghost(orig), v);
        proof {
            lemma_cnt_fwd_le_len(ov, k0, v@);
        }
        if self.nodes.len() > 0 {
            self.head.element_count = self.head.element_count - n;
        }
        n
    }

    /// The tail-to-head removal walk, one node per call: processes the node
    /// left of position `ni`, then recurses towards the head with the budget
    /// that is left. `j` counts the original nodes not yet processed.
    #[verifier::rlimit(100)]
    #[verifier::spinoff_prover]
    fn rem_walk_bwd(
        &mut self,
        ni: usize,
        k: Option<u32>,
        removed: u32,
        Ghost(j): Ghost<int>,
        Ghost(orig): Ghost<Seq<ListNode>>,
        v: &Vec<u8>,
    ) -> (n: u32)
        requires
            0 <= j <= orig.len(),
            ni as int == j,
            ni <= old(self).nodes@.len(),
            orig.len() <= u32::MAX,
            chain_view(orig).len() <= u32::MAX,
            blocks_eq(old(self).nodes@.take(ni as int), orig.take(j)),
            chain_view(old(self).nodes@.skip(ni as int)) == rem_bwd(
                chain_view(orig.skip(j)),
                bspec(k),
                v@,
            ),
            removed as nat == cnt_bwd(chain_view(orig.skip(j)), bspec(k), v@),
            match k {
                Some(b) => removed <= b,
                None => true,
            },
            old(self).nodes@.len() > 0 ==> linked(old(self).nodes@) && ends_ok(
                old(self).head,
                old(self).nodes@,
            ),
            forall|q: int|
                0 <= q < old(self).nodes@.len() ==> wf_node(#[trigger] old(self).nodes@[q]),
            old(self).head.node_count as nat == old(self).nodes@.len(),
        ensures
            n as nat == cnt_bwd(chain_view(orig), bspec(k), v@),
            final(self).key == old(self).key,
            final(self).head.element_count == old(self).head.element_count,
            final(self).nodes@.len() > 0 ==> linked(final(self).nodes@) && ends_ok(
                final(self).head,
                final(self).nodes@,
            ) && chain_view(final(self).nodes@) == rem_bwd(chain_view(orig), bspec(k), v@)
                && final(self).head.node_count as nat == final(self).nodes@.len() && (forall|
                q: int,
            |
                0 <= q < final(self).nodes@.len() ==> wf_node(#[trigger] final(self).nodes@[q])),
            final(self).nodes@.len() == 0 ==> rem_bwd(chain_view(orig), bspec(k), v@).len() == 0,
        decreases j,
    {
        let ghost k0 = bspec(k);
        let more = match k {
            Some(b) => removed < b,
            None => true,
        };
        if ni == 0 || !more {
            proof {
                if ni == 0 {
                    assert(j == 0);
                    assert(orig.skip(0) =~= orig);
                    assert(self.nodes@.skip(0) =~= self.nodes@);
                } else {
                    lemma_chain_view_split(orig, j);
                    assert(orig.take(j) + orig.skip(j) =~= orig);
                    lemma_rem_bwd_concat(
                        chain_view(orig.take(j)),
                        chain_view(orig.skip(j)),
                        k0,
                        v@,
                    );
                    assert(budget_sub(k0, cnt_bwd(chain_view(orig.skip(j)), k0, v@)) == Some(
                        0nat,
                    ));
                    assert(rem_bwd(chain_view(orig.take(j)), Some(0nat), v@) == chain_view(
                        orig.take(j),
                    ));
                }
                if self.nodes@.len() > 0 {
                    lemma_chain_view_split(self.nodes@, ni as int);
                    lemma_blocks_eq_view(self.nodes@.take(ni as int), orig.take(j));
                }
            }
            return removed;
        }
        let ghost pre_nodes = self.nodes@;
        let rem_budget: Option<u32> = match k {
            Some(b) => Some(b - removed),
            None => None,
        };
        proof {
            assert(pre_nodes.take(ni as int)[ni - 1] == pre_nodes[ni - 1]);
            assert(orig.take(j)[j - 1] == orig[j - 1]);
            assert(pre_nodes[ni - 1].block == orig[j - 1].block);
            assert(wf_node(pre_nodes[ni - 1]));
            assert(orig.skip(j - 1) =~= seq![orig[j - 1]] + orig.skip(j));
            lemma_chain_view_concat(seq![orig[j - 1]], orig.skip(j));
            lemma_chain_view_singleton(orig[j - 1]);
            lemma_rem_bwd_concat(orig[j - 1].block@, chain_view(orig.skip(j)), k0, v@);
            assert(budget_sub(k0, cnt_bwd(chain_view(orig.skip(j)), k0, v@)) == bspec(rem_budget));
        }
        let res = self.rem_node_back(ni - 1, rem_budget, v);
        let d = res.0;
        let gone = res.1;
        proof {
            lemma_cnt_bwd_le_len(chain_view(orig.skip(j - 1)), k0, v@);
            lemma_chain_view_split(orig, j - 1);
            if k is Some {
                lemma_cnt_bwd_le_budget(chain_view(orig.skip(j - 1)), k.unwrap() as nat, v@);
            }
            let rb = rem_bwd(orig[j - 1].block@, bspec(rem_budget), v@);
            crate::chain::lemma_blocks_eq_prefix(
                pre_nodes.take(ni as int),
                orig.take(j),
                ni - 1,
            );
            assert(pre_nodes.take(ni as int).take(ni - 1) =~= pre_nodes.take(ni - 1));
            assert(orig.take(j).take(j - 1) =~= orig.take(j - 1));
            crate::chain::lemma_blocks_eq_trans(
                self.nodes@.take(ni - 1),
                pre_nodes.take(ni - 1),
                orig.take(j - 1),
            );
            if gone {
                lemma_blocks_eq_view(self.nodes@.skip(ni - 1), pre_nodes.skip(ni as int));
                assert(chain_view(self.nodes@.skip(ni - 1)) == rem_bwd(
                    chain_view(orig.skip(j - 1)),
                    k0,
                    v@,
                )) by {
                    assert(rb.len() == 0);
                    assert(Seq::<Seq<u8>>::empty() + rem_bwd(chain_view(orig.skip(j)), k0, v@)
                        =~= rem_bwd(chain_view(orig.skip(j)), k0, v@));
                }
            } else {
                let ns2 = self.nodes@;
                assert(ns2.skip(ni - 1) =~= seq![ns2[ni - 1]] + ns2.skip(ni as int));
                lemma_chain_view_concat(seq![ns2[ni - 1]], ns2.skip(ni as int));
                lemma_chain_view_singleton(ns2[ni - 1]);
                lemma_blocks_eq_view(ns2.skip(ni as int), pre_nodes.skip(ni as int));
                assert(chain_view(ns2.skip(ni - 1)) == rem_bwd(
                    chain_view(orig.skip(j - 1)),
                    k0,
                    v@,
                ));
            }
        }
        self.rem_walk_bwd(ni - 1, k, removed + d, Ghost(j - 1), Ghost(orig), v)
    }

    /// Remove, scanning node by node from the tail, up to `k` elements equal
    /// to `v`; the tail-to-head mirror of `rem_scan_fwd`.
    #[verifier::rlimit(100)]
    #[verifier::spinoff_prover]
    fn rem_scan_bwd(&mut self, k: Option<u32>, v: &Vec<u8>) -> (n: u32)
        requires
            wf_record(*old(self)),
        ensures
            ({
                let ov = chain_view(old(self).nodes@);
                let k0 = bspec(k);
                &&& n as nat == cnt_bwd(ov, k0, v@)
                &&& final(self).key == old(self).key
                &&& (final(self).nodes@.len() > 0 ==> wf_record(*final(self)) && chain_view(
                    final(self).nodes@,
                ) == rem_bwd(ov, k0, v@))
                &&& (final(self).nodes@.len() == 0 ==> rem_bwd(ov, k0, v@).len() == 0)
            }),
    {
        let ghost orig = self.nodes@;
        let ghost ov = chain_view(orig);
        let ghost k0 = bspec(k);
        let len = self.nodes.len();
        proof {
            assert(orig.skip(orig.len() as int) =~= Seq::<ListNode>::empty());
            assert(chain_view(Seq::<ListNode>::empty()) =~= Seq::<Seq<u8>>::empty());
            assert(rem_bwd(Seq::<Seq<u8>>::empty(), k0, v@).len() == 0);
            assert(cnt_bwd(Seq::<Seq<u8>>::empty(), k0, v@) == 0);
            assert(self.nodes@.skip(len as int) =~= Seq::<ListNode>::empty());
            assert(self.nodes@.take(len as int) =~= self.nodes@);
            assert(orig.take(orig.len() as int) =~= orig);
        }
        let n = self.rem_walk_bwd(len, k, 0, Ghost(orig.len() as int), Ghost(orig), v);
        proof {
            lemma_cnt_bwd_le_len(ov, k0, v@);
        }
        if self.nodes.len() > 0 {
            self.head.element_count = self.head.element_count - n;
        }
        n
    }
}

impl ListEngine {
    /// Remove elements equal to `value`, scanning head to tail: a positive
    /// count removes at most that many, zero removes every match. Nodes
    /// whose blocks empty are spliced out; a list that empties is deleted.
    /// Returns how many elements were removed; an absent list removes none.
    #[verifier::rlimit(100)]
    #[verifier::spinoff_prover]
    /// Put a record back at position `i` after a removal walk, or drop it
    /// for good when its chain emptied; re-establishes the store invariant
    /// and the frame over every other key.
    #[verifier::rlimit(100)]
    #[verifier::spinoff_prover]
    fn reattach(&mut self, i: usize, rec: ListRecord, Ghost(ol): Ghost<Seq<ListRecord>>)
        requires
            old(self).lists@ == ol.remove(i as int),
            (i as int) < ol.len(),
            forall|q: int| 0 <= q < ol.len() && q != i as int ==> wf_record(#[trigger] ol[q]),
            forall|a: int, b: int| 0 <= a < b < ol.len() ==> ol[a].key@ != ol[b].key@,
            rec.key@ == ol[i as int].key@,
            rec.nodes@.len() > 0 ==> wf_record(rec),
        ensures
            final(self).wf(),
            final(self).list_of(rec.key@) == (if rec.nodes@.len() > 0 {
                Some(chain_view(rec.nodes@))
            } else {
                None::<Seq<Seq<u8>>>
            }),
            forall|k2: Seq<u8>| k2 != rec.key@ ==> final(self).list_of(k2) == lookup(ol, k2),
    {
        proof {
            assert forall|q: int|
                0 <= q < ol.len() && q != i as int implies (#[trigger] ol[q]).key@ != ol[
            i as int].key@ by {}
        }
        if rec.nodes.len() == 0 {
            proof {
                assert forall|jj: int| 0 <= jj < self.lists@.len() implies wf_record(
                    #[trigger] self.lists@[jj],
                ) by {
                    if jj < i as int {
                        assert(self.lists@[jj] == ol[jj]);
                    } else {
                        assert(self.lists@[jj] == ol[jj + 1]);
                    }
                }
                assert forall|a: int, b: int|
                    0 <= a < b < self.lists@.len() implies self.lists@[a].key@
                    != self.lists@[b].key@ by {
                    let a2 = if a < i as int {
                        a
                    } else {
                        a + 1
                    };
                    let b2 = if b < i as int {
                        b
                    } else {
                        b + 1
                    };
                    assert(self.lists@[a] == ol[a2] && self.lists@[b] == ol[b2]);
                }
                assert forall|k2: Seq<u8>| true implies lookup(self.lists@, k2) == (if k2
                    == rec.key@ {
                    None::<Seq<Seq<u8>>>
                } else {
                    lookup(ol, k2)
                }) by {
                    lemma_lookup_remove(ol, i as int, k2);
                }
            }
        } else {
            let ghost grec = rec;
            self.lists.insert(i, rec);
            proof {
                assert(self.lists@ =~= ol.update(i as int, grec));
                assert forall|jj: int| 0 <= jj < self.lists@.len() implies wf_record(
                    #[trigger] self.lists@[jj],
                ) by {
                    if jj != i as int {
                        assert(self.lists@[jj] == ol[jj]);
                    }
                }
                assert forall|a: int, b: int|
                    0 <= a < b < self.lists@.len() implies self.lists@[a].key@
                    != self.lists@[b].key@ by {
                    assert(self.lists@[a].key@ == ol[a].key@ && self.lists@[b].key@
                        == ol[b].key@);
                }
                assert forall|k2: Seq<u8>| true implies lookup(self.lists@, k2) == (if k2
                    == grec.key@ {
                    Some(chain_view(grec.nodes@))
                } else {
                    lookup(ol, k2)
                }) by {
                    lemma_lookup_update(ol, i as int, grec, k2);
                }
            }
        }
    }

    /// Remove elements equal to `value`: a positive count scans head to
    /// tail under that budget, a negative one tail to head under its
    /// magnitude, zero removes every match. Nodes whose blocks empty are
    /// spliced out; a list that empties is deleted. Returns how many
    /// elements were removed; an absent list removes none.
    #[verifier::rlimit(100)]
    #[verifier::spinoff_prover]
    pub fn lrem(&mut self, key: &Vec<u8>, count: i32, value: &Vec<u8>) -> (n: u32)
        requires
            old(self).wf(),
        ensures
            final(self).wf(),
            n as nat == m_lrem_cnt(old(self).list_of(key@), count as int, value@),
            final(self).list_of(key@) == norm(
                m_lrem_rest(old(self).list_of(key@), count as int, value@),
            ),
            forall|k2: Seq<u8>| k2 != key@ ==> final(self).list_of(k2) == old(self).list_of(k2),
    {
        match self.find_list(key) {
            None => {
                proof {
                    let kk: Option<nat> = if count > 0 {
                        Some(count as nat)
                    } else if count < 0 {
                        Some((-(count as int)) as nat)
                    } else {
                        None
                    };
                    assert(opt_list(old(self).list_of(key@)) =~= Seq::<Seq<u8>>::empty());
                    assert(rem_fwd(Seq::<Seq<u8>>::empty(), kk, value@).len() == 0);
                    assert(cnt_fwd(Seq::<Seq<u8>>::empty(), kk, value@) == 0);
                    assert(rem_bwd(Seq::<Seq<u8>>::empty(), kk, value@).len() == 0);
                    assert(cnt_bwd(Seq::<Seq<u8>>::empty(), kk, value@) == 0);
                }
                0
            },
            Some(i) => {
                let ghost ol = self.lists@;
                let ghost ov = chain_view(ol[i as int].nodes@);
                let mut rec = self.lists.remove(i);
                proof {
                    assert(wf_record(rec));
                }
                let n: u32;
                if count >= 0 {
                    let budget: Option<u32> = if count > 0 {
                        Some(count as u32)
                    } else {
                        None
                    };
                    n = rec.rem_scan_fwd(budget, value);
                    proof {
                        assert(bspec(budget) == (if count > 0 {
                            Some(count as nat)
                        } else {
                            None::<nat>
                        }));
                    }
                } else {
                    let mag: u32 = (-(count as i64)) as u32;
                    proof {
                        assert(mag as nat == (-(count as int)) as nat);
                    }
                    n = rec.rem_scan_bwd(Some(mag), value);
                }
                proof {
                    if rec.nodes@.len() > 0 {
                        lemma_chain_view_len_ge(rec.nodes@);
                    }
                }
                self.reattach(i, rec, Ghost(ol));
                n
            },
        }
    }

}

impl ListRecord {
    /// Insert `value` at local position `li` of node `ni`'s block; the
    /// logical position is the chain offset of that node plus `li`.
    #[verifier::rlimit(100)]
    #[verifier::spinoff_prover]
    fn insert_in_node(&mut self, ni: usize, li: usize, value: Vec<u8>)
        requires
            wf_record(*old(self)),
            ni < old(self).nodes@.len(),
            li <= old(self).nodes@[ni as int].block@.len(),
            chain_view(old(self).nodes@).len() < u32::MAX,
        ensures
            wf_record(*final(self)),
            final(self).key == old(self).key,
            chain_view(final(self).nodes@) == chain_view(old(self).nodes@).insert(
                chain_view(old(self).nodes@.take(ni as int)).len() + li,
                value@,
            ),
    {
        let ghost ns = self.nodes@;
        let ghost view = chain_view(ns);
        let ghost off = chain_view(ns.take(ni as int)).len() as int;
        proof {
            lemma_chain_view_split(ns, ni as int);
            lemma_chain_view_skip_unfold(ns, ni as int);
            assert(wf_node(ns[ni as int]));
        }
        let mut nd = self.nodes.remove(ni);
        nd.block.insert_at(li, value);
        let bl = nd.block.len();
        nd.element_count = bl as u32;
        let ghost nd2 = nd;
        self.nodes.insert(ni, nd);
        self.head.element_count = self.head.element_count + 1;
        proof {
            let ns2 = self.nodes@;
            assert(ns2 =~= ns.update(ni as int, nd2));
            lemma_linked_update_same(ns, ns2, ni as int);
            assert(ends_ok(self.head, ns2)) by {
                assert(ns2[0].key == ns[0].key);
                assert(ns2.last().key == ns.last().key);
            }
            crate::chain::lemma_chain_view_block_insert(ns, ns2, ni as int, li as int, value@);
            assert(wf_node(nd2));
            assert forall|q: int| 0 <= q < ns2.len() implies wf_node(#[trigger] ns2[q]) by {
                if q != ni as int {
                    assert(ns2[q] == ns[q]);
                }
            }
        }
    }

    /// Overwrite the element at local position `li` of node `ni`'s block.
    #[verifier::rlimit(100)]
    #[verifier::spinoff_prover]
    fn set_in_node(&mut self, ni: usize, li: usize, value: Vec<u8>)
        requires
            wf_record(*old(self)),
            ni < old(self).nodes@.len(),
            li < old(self).nodes@[ni as int].block@.len(),
        ensures
            wf_record(*final(self)),
            final(self).key == old(self).key,
            chain_view(final(self).nodes@) == chain_view(old(self).nodes@).update(
                chain_view(old(self).nodes@.take(ni as int)).len() + li,
                value@,
            ),
    {
        let ghost ns = self.nodes@;
        let ghost view = chain_view(ns);
        let ghost off = chain_view(ns.take(ni as int)).len() as int;
        proof {
            lemma_chain_view_split(ns, ni as int);
            lemma_chain_view_skip_unfold(ns, ni as int);
            assert(wf_node(ns[ni as int]));
        }
        let mut nd = self.nodes.remove(ni);
        nd.block.set(li, value);
        let ghost nd2 = nd;
        self.nodes.insert(ni, nd);
        proof {
            let ns2 = self.nodes@;
            assert(ns2 =~= ns.update(ni as int, nd2));
            lemma_linked_update_same(ns, ns2, ni as int);
            assert(ends_ok(self.head, ns2)) by {
                assert(ns2[0].key == ns[0].key);
                assert(ns2.last().key == ns.last().key);
            }
            crate::chain::lemma_chain_view_block_update(ns, ns2, ni as int, li as int, value@);
            assert(wf_node(nd2));
            assert forall|q: int| 0 <= q < ns2.len() implies wf_node(#[trigger] ns2[q]) by {
                if q != ni as int {
                    assert(ns2[q] == ns[q]);
                }
            }
        }
    }
}

/// Node index and local slot of the first element equal to `pivot`, walking
/// the chain from the head; none when no element matches.
#[verifier::rlimit(100)]
#[verifier::spinoff_prover]
fn find_pivot(rec: &ListRecord, pivot: &Vec<u8>) -> (r: Option<(usize, usize)>)
    requires
        wf_record(*rec),
    ensures
        match r {
            Some(p) => {
                &&& (p.0 as int) < rec.nodes@.len()
                &&& (p.1 as int) < rec.nodes@[p.0 as int].block@.len()
                &&& first_idx(chain_view(rec.nodes@), pivot@) == chain_view(
                    rec.nodes@.take(p.0 as int),
                ).len() + p.1
            },
            None => first_idx(chain_view(rec.nodes@), pivot@) == -1,
        },
{
    let ghost ns = rec.nodes@;
    let ghost view = chain_view(ns);
    let mut ni: usize = 0;
    let mut off: u64 = 0;
    proof {
        assert(ns.take(0) =~= Seq::<ListNode>::empty());
        assert(view.len() <= u32::MAX);
        assert(ns.len() <= u32::MAX);
    }
    while ni < rec.nodes.len()
        invariant
            ns == rec.nodes@,
            view == chain_view(ns),
            view.len() <= u32::MAX,
            ns.len() <= u32::MAX,
            forall|t: int| 0 <= t < ns.len() ==> wf_node(#[trigger] ns[t]),
            ni <= ns.len(),
            off as nat == chain_view(ns.take(ni as int)).len(),
            forall|t: int| 0 <= t < off ==> view[t] != pivot@,
        decreases ns.len() - ni,
    {
        let ghost no = ni as int;
        proof {
            assert(wf_node(ns[no]));
            lemma_chain_view_split(ns, no);
            lemma_chain_view_skip_unfold(ns, no);
            assert(ns.take(no + 1) =~= ns.take(no) + seq![ns[no]]);
            lemma_chain_view_concat(ns.take(no), seq![ns[no]]);
            lemma_chain_view_singleton(ns[no]);
        }
        match rec.nodes[ni].block.find_first(pivot) {
            Some(jl) => {
                proof {
                    let g = off as int + jl;
                    assert(view[g] == ns[no].block@[jl as int]);
                    assert forall|t: int| 0 <= t < g implies view[t] != pivot@ by {
                        if t >= off {
                            assert(view[t] == ns[no].block@[t - off]);
                        }
                    }
                    lemma_first_idx_props(view, pivot@);
                    let f = first_idx(view, pivot@);
                    assert(view[g] == pivot@);
                    if f < g {
                        assert(view[f] == pivot@);
                        assert(false);
                    }
                    if f > g {
                        assert(view[g] != pivot@);
                        assert(false);
                    }
                }
                return Some((ni, jl));
            },
            None => {
                proof {
                    assert forall|t: int|
                        0 <= t < off + ns[no].block@.len() implies view[t] != pivot@ by {
                        if t >= off {
                            assert(view[t] == ns[no].block@[t - off]);
                        }
                    }
                }
                off = off + rec.nodes[ni].element_count as u64;
                ni += 1;
            },
        }
    }
    proof {
        assert(ns.take(ni as int) =~= ns);
        lemma_first_idx_props(view, pivot@);
        let f = first_idx(view, pivot@);
        if f >= 0 {
            assert(view[f] == pivot@);
            assert(false);
        }
    }
    None
}

impl ListEngine {
    /// Insert `value` beside the first element equal to `pivot`, searching
    /// the whole chain. Returns how many elements were inserted: one, or
    /// zero when the list is absent or no element matches the pivot.
    #[verifier::rlimit(100)]
    #[verifier::spinoff_prover]
    fn do_linsert(&mut self, key: &Vec<u8>, pivot: &Vec<u8>, value: Vec<u8>, after: bool) -> (n:
        u32)
        requires
            old(self).wf(),
            opt_list(old(self).list_of(key@)).len() < u32::MAX,
        ensures
            final(self).wf(),
            n as nat == m_linsert_cnt(old(self).list_of(key@), pivot@),
            old(self).list_of(key@) is None ==> *final(self) == *old(self),
            old(self).list_of(key@) is Some ==> final(self).list_of(key@) == Some(
                m_linsert(old(self).list_of(key@), after, pivot@, value@),
            ),
            forall|k2: Seq<u8>| k2 != key@ ==> final(self).list_of(k2) == old(self).list_of(k2),
    {
        match self.find_list(key) {
            None => 0,
            Some(i) => {
                let ghost ov = chain_view(self.lists@[i as int].nodes@);
                let found = find_pivot(&self.lists[i], pivot);
                match found {
                    None => {
                        proof {
                            assert(m_linsert(old(self).list_of(key@), after, pivot@, value@)
                                == ov);
                        }
                        0
                    },
                    Some(p) => {
                        let at = if after {
                            p.1 + 1
                        } else {
                            p.1
                        };
                        let ghost ol = self.lists@;
                        let ghost f = first_idx(ov, pivot@);
                        let mut rec = self.lists.remove(i);
                        proof {
                            assert(wf_record(rec));
                            lemma_first_idx_props(ov, pivot@);
                        }
                        rec.insert_in_node(p.0, at, value);
                        let ghost grec = rec;
                        proof {
                            assert(chain_view(grec.nodes@) == ov.insert(
                                if after {
                                    f + 1
                                } else {
                                    f
                                },
                                value@,
                            ));
                            assert(grec.nodes@.len() > 0);
                        }
                        self.reattach(i, rec, Ghost(ol));
                        1
                    },
                }
            },
        }
    }

    /// Insert `value` immediately before the first element equal to `pivot`.
    pub fn linsert_before(&mut self, key: &Vec<u8>, pivot: &Vec<u8>, value: Vec<u8>) -> (n: u32)
        requires
            old(self).wf(),
            opt_list(old(self).list_of(key@)).len() < u32::MAX,
        ensures
            final(self).wf(),
            n as nat == m_linsert_cnt(old(self).list_of(key@), pivot@),
            old(self).list_of(key@) is None ==> *final(self) == *old(self),
            old(self).list_of(key@) is Some ==> final(self).list_of(key@) == Some(
                m_linsert(old(self).list_of(key@), false, pivot@, value@),
            ),
            forall|k2: Seq<u8>| k2 != key@ ==> final(self).list_of(k2) == old(self).list_of(k2),
    {
        self.do_linsert(key, pivot, value, false)
    }

    /// Insert `value` immediately after the first element equal to `pivot`.
    pub fn linsert_after(&mut self, key: &Vec<u8>, pivot: &Vec<u8>, value: Vec<u8>) -> (n: u32)
        requires
            old(self).wf(),
            opt_list(old(self).list_of(key@)).len() < u32::MAX,
        ensures
            final(self).wf(),
            n as nat == m_linsert_cnt(old(self).list_of(key@), pivot@),
            old(self).list_of(key@) is None ==> *final(self) == *old(self),
            old(self).list_of(key@) is Some ==> final(self).list_of(key@) == Some(
                m_linsert(old(self).list_of(key@), true, pivot@, value@),
            ),
            forall|k2: Seq<u8>| k2 != key@ ==> final(self).list_of(k2) == old(self).list_of(k2),
    {
        self.do_linsert(key, pivot, value, true)
    }

    /// Overwrite the element at a signed position: negative counts from the
    /// tail. Absent list or a position resolving outside it: not found, and
    /// the store is unchanged.
    #[verifier::rlimit(100)]
    #[verifier::spinoff_prover]
    pub fn lset(&mut self, key: &Vec<u8>, index: i32, value: Vec<u8>) -> (r: Result<(), Error>)
        requires
            old(self).wf(),
        ensures
            final(self).wf(),
            match r {
                Ok(()) => {
                    &&& old(self).list_of(key@) is Some
                    &&& {
                        let s = opt_list(old(self).list_of(key@));
                        let t = resolve_index(s.len() as int, index as int);
                        &&& 0 <= t < s.len()
                        &&& final(self).list_of(key@) == Some(s.update(t, value@))
                    }
                    &&& (forall|k2: Seq<u8>|
                        k2 != key@ ==> final(self).list_of(k2) == old(self).list_of(k2))
                },
                Err(e) => {
                    &&& e == Error::NotFound
                    &&& {
                        let s = opt_list(old(self).list_of(key@));
                        let t = resolve_index(s.len() as int, index as int);
                        old(self).list_of(key@) is None || t < 0 || t >= s.len()
                    }
                    &&& *final(self) == *old(self)
                },
            },
    {
        match self.find_list(key) {
            None => Err(Error::NotFound),
            Some(i) => {
                let ghost ov = chain_view(self.lists@[i as int].nodes@);
                let len = self.lists[i].head.element_count;
                let r64: i64 = if index >= 0 {
                    index as i64
                } else {
                    len as i64 + index as i64
                };
                proof {
                    assert(r64 == resolve_index(ov.len() as int, index as int));
                }
                if r64 < 0 || r64 >= len as i64 {
                    return Err(Error::NotFound);
                }
                let target = r64 as u64;
                let p = locate(&self.lists[i], target);
                let ghost ol = self.lists@;
                let mut rec = self.lists.remove(i);
                proof {
                    assert(wf_record(rec));
                }
                rec.set_in_node(p.0, p.1, value);
                let ghost grec = rec;
                proof {
                    assert(chain_view(grec.nodes@) == ov.update(target as int, value@));
                    assert(grec.nodes@.len() > 0);
                }
                self.reattach(i, rec, Ghost(ol));
                Ok(())
            },
        }
    }

    /// Keep only the window `[start, stop]` (endpoints resolved and clamped
    /// as in `lrange`), deleting everything else; returns how many elements
    /// were deleted. A window that keeps nothing deletes the list.
    #[verifier::rlimit(100)]
    #[verifier::spinoff_prover]
    pub fn ltrim(&mut self, key: &Vec<u8>, start: i32, stop: i32) -> (n: u32)
        requires
            old(self).wf(),
        ensures
            final(self).wf(),
            final(self).list_of(key@) == norm(
                m_lrange(old(self).list_of(key@), start as int, stop as int),
            ),
            n as nat == opt_list(old(self).list_of(key@)).len() - m_lrange(
                old(self).list_of(key@),
                start as int,
                stop as int,
            ).len(),
            forall|k2: Seq<u8>| k2 != key@ ==> final(self).list_of(k2) == old(self).list_of(k2),
    {
        let kept = self.lrange(key, start, stop);
        let ghost kv = kept@.map_values(|e: Vec<u8>| e@);
        match self.find_list(key) {
            None => 0,
            Some(i) => {
                let ghost ol = self.lists@;
                let ghost ov = chain_view(ol[i as int].nodes@);
                let old_len = self.lists[i].head.element_count;
                let cnt = kept.len();
                proof {
                    assert(kv.len() <= ov.len()) by {
                        assert(kv == m_lrange(lookup(ol, key@), start as int, stop as int));
                    }
                }
                let rec = self.lists.remove(i);
                let ListRecord { key: rkey, head: _, nodes: _ } = rec;
                if cnt == 0 {
                    let rec2 = ListRecord {
                        key: rkey,
                        head: ListHead {
                            left: None,
                            right: None,
                            element_count: 0,
                            node_count: 0,
                        },
                        nodes: Vec::new(),
                    };
                    self.reattach(i, rec2, Ghost(ol));
                    old_len
                } else {
                    let fresh = self.next_key;
                    self.next_key = self.next_key.wrapping_add(1);
                    let kept_count = cnt as u32;
                    let node = ListNode {
                        key: fresh,
                        left: None,
                        right: None,
                        element_count: kept_count,
                        block: PackedBlock::from_elems(kept),
                    };
                    let ghost gn = node;
                    let mut nodes: Vec<ListNode> = Vec::new();
                    nodes.push(node);
                    let rec2 = ListRecord {
                        key: rkey,
                        head: ListHead {
                            left: Some(fresh),
                            right: Some(fresh),
                            element_count: kept_count,
                            node_count: 1,
                        },
                        nodes,
                    };
                    let ghost grec = rec2;
                    proof {
                        assert(grec.nodes@ =~= seq![gn]);
                        lemma_chain_view_singleton(gn);
                        assert(wf_record(grec)) by {
                            assert(wf_node(gn));
                            assert(linked(grec.nodes@)) by {
                                assert(grec.nodes@.len() == 1);
                            }
                            assert(ends_ok(grec.head, grec.nodes@));
                        }
                        assert(chain_view(grec.nodes@) == kv);
                    }
                    self.reattach(i, rec2, Ghost(ol));
                    old_len - kept_count
                }
            },
        }
    }
}

} // verus!
