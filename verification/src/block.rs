//! The packed block: one node's densely stored run of byte-string elements,
//! with push/pop at both ends, positional access, sub-range extraction,
//! value-matching removal under a budget, and the index arithmetic shared by
//! every ranged operation (signed index resolution, window intersection).
use vstd::prelude::*;

verus! {

/// Redis-style index resolution: a non-negative index addresses from the
/// head, a negative one from the tail (`-1` is the last element).
pub open spec fn resolve_index(len: int, i: int) -> int {
    if i < 0 {
        len + i
    } else {
        i
    }
}

/// Removal budget as a mathematical option: `None` is unbounded.
pub open spec fn bspec(k: Option<u32>) -> Option<nat> {
    match k {
        None => None,
        Some(b) => Some(b as nat),
    }
}

pub open spec fn budget_dec(k: Option<nat>) -> Option<nat> {
    match k {
        None => None,
        Some(n) => Some((n - 1) as nat),
    }
}

pub open spec fn budget_sub(k: Option<nat>, n: nat) -> Option<nat> {
    match k {
        None => None,
        Some(m) => Some(if n <= m {
            (m - n) as nat
        } else {
            0nat
        }),
    }
}

/// Survivors after removing, scanning head to tail, up to `k` elements equal
/// to `v` (`k == None`: no budget, remove all matches).
pub open spec fn rem_fwd(s: Seq<Seq<u8>>, k: Option<nat>, v: Seq<u8>) -> Seq<Seq<u8>>
    decreases s.len(),
{
    if s.len() == 0 || k == Some(0nat) {
        s
    } else if s[0] == v {
        rem_fwd(s.drop_first(), budget_dec(k), v)
    } else {
        seq![s[0]] + rem_fwd(s.drop_first(), k, v)
    }
}

/// How many elements the head-to-tail removal takes out.
pub open spec fn cnt_fwd(s: Seq<Seq<u8>>, k: Option<nat>, v: Seq<u8>) -> nat
    decreases s.len(),
{
    if s.len() == 0 || k == Some(0nat) {
        0
    } else if s[0] == v {
        1 + cnt_fwd(s.drop_first(), budget_dec(k), v)
    } else {
        cnt_fwd(s.drop_first(), k, v)
    }
}

/// Survivors after removing, scanning tail to head, up to `k` elements equal
/// to `v`. Surviving elements keep their order.
pub open spec fn rem_bwd(s: Seq<Seq<u8>>, k: Option<nat>, v: Seq<u8>) -> Seq<Seq<u8>>
    decreases s.len(),
{
    if s.len() == 0 || k == Some(0nat) {
        s
    } else if s.last() == v {
        rem_bwd(s.drop_last(), budget_dec(k), v)
    } else {
        rem_bwd(s.drop_last(), k, v).push(s.last())
    }
}

/// How many elements the tail-to-head removal takes out.
pub open spec fn cnt_bwd(s: Seq<Seq<u8>>, k: Option<nat>, v: Seq<u8>) -> nat
    decreases s.len(),
{
    if s.len() == 0 || k == Some(0nat) {
        0
    } else if s.last() == v {
        1 + cnt_bwd(s.drop_last(), budget_dec(k), v)
    } else {
        cnt_bwd(s.drop_last(), k, v)
    }
}

pub proof fn lemma_cnt_fwd_le_len(s: Seq<Seq<u8>>, k: Option<nat>, v: Seq<u8>)
    ensures
        cnt_fwd(s, k, v) <= s.len(),
        rem_fwd(s, k, v).len() == s.len() - cnt_fwd(s, k, v),
    decreases s.len(),
{
    if s.len() == 0 || k == Some(0nat) {
    } else if s[0] == v {
        lemma_cnt_fwd_le_len(s.drop_first(), budget_dec(k), v);
    } else {
        lemma_cnt_fwd_le_len(s.drop_first(), k, v);
    }
}

pub proof fn lemma_cnt_bwd_le_len(s: Seq<Seq<u8>>, k: Option<nat>, v: Seq<u8>)
    ensures
        cnt_bwd(s, k, v) <= s.len(),
        rem_bwd(s, k, v).len() == s.len() - cnt_bwd(s, k, v),
    decreases s.len(),
{
    if s.len() == 0 || k == Some(0nat) {
    } else if s.last() == v {
        lemma_cnt_bwd_le_len(s.drop_last(), budget_dec(k), v);
    } else {
        lemma_cnt_bwd_le_len(s.drop_last(), k, v);
    }
}

pub proof fn lemma_cnt_fwd_le_budget(s: Seq<Seq<u8>>, m: nat, v: Seq<u8>)
    ensures
        cnt_fwd(s, Some(m), v) <= m,
    decreases s.len(),
{
    if s.len() == 0 || m == 0 {
    } else if s[0] == v {
        lemma_cnt_fwd_le_budget(s.drop_first(), (m - 1) as nat, v);
    } else {
        lemma_cnt_fwd_le_budget(s.drop_first(), m, v);
    }
}

pub proof fn lemma_cnt_bwd_le_budget(s: Seq<Seq<u8>>, m: nat, v: Seq<u8>)
    ensures
        cnt_bwd(s, Some(m), v) <= m,
    decreases s.len(),
{
    if s.len() == 0 || m == 0 {
    } else if s.last() == v {
        lemma_cnt_bwd_le_budget(s.drop_last(), (m - 1) as nat, v);
    } else {
        lemma_cnt_bwd_le_budget(s.drop_last(), m, v);
    }
}

/// Head-to-tail removal distributes over concatenation: the right part is
/// scanned with whatever budget the left part left over.
pub proof fn lemma_rem_fwd_concat(a: Seq<Seq<u8>>, b: Seq<Seq<u8>>, k: Option<nat>, v: Seq<u8>)
    ensures
        rem_fwd(a + b, k, v) == rem_fwd(a, k, v) + rem_fwd(b, budget_sub(k, cnt_fwd(a, k, v)), v),
        cnt_fwd(a + b, k, v) == cnt_fwd(a, k, v) + cnt_fwd(b, budget_sub(k, cnt_fwd(a, k, v)), v),
    decreases a.len(),
{
    if k == Some(0nat) {
        assert(rem_fwd(a + b, k, v) == a + b);
        assert(budget_sub(k, 0) == Some(0nat));
    } else if a.len() == 0 {
        assert(a + b =~= b);
        assert(rem_fwd(a, k, v) + rem_fwd(b, k, v) =~= rem_fwd(b, k, v));
        assert(budget_sub(k, 0) == k);
    } else {
        let t = a.drop_first();
        assert((a + b).drop_first() =~= t + b);
        assert((a + b)[0] == a[0]);
        if a[0] == v {
            lemma_rem_fwd_concat(t, b, budget_dec(k), v);
            assert(budget_sub(k, 1 + cnt_fwd(t, budget_dec(k), v)) == budget_sub(
                budget_dec(k),
                cnt_fwd(t, budget_dec(k), v),
            ));
        } else {
            lemma_rem_fwd_concat(t, b, k, v);
            assert(seq![a[0]] + (rem_fwd(t, k, v) + rem_fwd(b, budget_sub(k, cnt_fwd(t, k, v)), v))
                =~= (seq![a[0]] + rem_fwd(t, k, v)) + rem_fwd(
                b,
                budget_sub(k, cnt_fwd(t, k, v)),
                v,
            ));
        }
    }
}

/// Tail-to-head removal distributes over concatenation: the left part is
/// scanned with whatever budget the right part left over.
pub proof fn lemma_rem_bwd_concat(a: Seq<Seq<u8>>, b: Seq<Seq<u8>>, k: Option<nat>, v: Seq<u8>)
    ensures
        rem_bwd(a + b, k, v) == rem_bwd(a, budget_sub(k, cnt_bwd(b, k, v)), v) + rem_bwd(b, k, v),
        cnt_bwd(a + b, k, v) == cnt_bwd(a, budget_sub(k, cnt_bwd(b, k, v)), v) + cnt_bwd(b, k, v),
    decreases b.len(),
{
    if k == Some(0nat) {
        assert(rem_bwd(a + b, k, v) == a + b);
        assert(budget_sub(k, 0) == Some(0nat));
    } else if b.len() == 0 {
        assert(a + b =~= a);
        assert(rem_bwd(a, k, v) + rem_bwd(b, k, v) =~= rem_bwd(a, k, v));
        assert(budget_sub(k, 0) == k);
    } else {
        let t = b.drop_last();
        assert((a + b).drop_last() =~= a + t);
        assert((a + b).last() == b.last());
        if b.last() == v {
            lemma_rem_bwd_concat(a, t, budget_dec(k), v);
            assert(budget_sub(k, 1 + cnt_bwd(t, budget_dec(k), v)) == budget_sub(
                budget_dec(k),
                cnt_bwd(t, budget_dec(k), v),
            ));
        } else {
            lemma_rem_bwd_concat(a, t, k, v);
        }
    }
}

/// Byte-string equality, decided element by element.
pub fn bytes_eq(a: &Vec<u8>, b: &Vec<u8>) -> (r: bool)
    ensures
        r == (a@ == b@),
{
    if a.len() != b.len() {
        return false;
    }
    let mut i: usize = 0;
    while i < a.len()
        invariant
            i <= a.len(),
            a.len() == b.len(),
            forall|j: int| 0 <= j < i ==> a@[j] == b@[j],
        decreases a.len() - i,
    {
        if a[i] != b[i] {
            return false;
        }
        i += 1;
    }
    proof {
        assert(a@ =~= b@);
    }
    true
}

/// One node's elements, stored as a densely packed ordered run.
pub struct PackedBlock {
    elems: Vec<Vec<u8>>,
}

impl View for PackedBlock {
    type V = Seq<Seq<u8>>;

    closed spec fn view(&self) -> Seq<Seq<u8>> {
        self.elems@.map_values(|e: Vec<u8>| e@)
    }
}

impl PackedBlock {
    pub fn new() -> (b: PackedBlock)
        ensures
            b@ == Seq::<Seq<u8>>::empty(),
    {
        let b = PackedBlock { elems: Vec::new() };
        proof {
            assert(b@ =~= Seq::<Seq<u8>>::empty());
        }
        b
    }

    /// A block holding exactly one element.
    pub fn singleton(v: Vec<u8>) -> (b: PackedBlock)
        ensures
            b@ == seq![v@],
    {
        let mut elems: Vec<Vec<u8>> = Vec::new();
        let ghost vv = v@;
        elems.push(v);
        let b = PackedBlock { elems };
        proof {
            assert(b@ =~= seq![vv]);
        }
        b
    }

    /// A block holding exactly the given elements, in order.
    pub fn from_elems(elems: Vec<Vec<u8>>) -> (b: PackedBlock)
        ensures
            b@ == elems@.map_values(|e: Vec<u8>| e@),
    {
        PackedBlock { elems }
    }

    pub fn len(&self) -> (n: usize)
        ensures
            n == self@.len(),
    {
        self.elems.len()
    }

    /// The element at position `i`, or none if `i` is out of range.
    pub fn index(&self, i: usize) -> (r: Option<&Vec<u8>>)
        ensures
            match r {
                Some(e) => i < self@.len() && e@ == self@[i as int],
                None => i >= self@.len(),
            },
    {
        if i < self.elems.len() {
            Some(&self.elems[i])
        } else {
            None
        }
    }

    /// The element at position `i`; the caller guarantees the bound.
    pub fn get(&self, i: usize) -> (r: &Vec<u8>)
        requires
            i < self@.len(),
        ensures
            r@ == self@[i as int],
    {
        &self.elems[i]
    }

    pub fn push_left(&mut self, v: Vec<u8>)
        ensures
            final(self)@ == seq![v@] + old(self)@,
    {
        let ghost vv = v@;
        self.elems.insert(0, v);
        proof {
            assert(self@ =~= seq![vv] + old(self)@);
        }
    }

    pub fn push_right(&mut self, v: Vec<u8>)
        ensures
            final(self)@ == old(self)@.push(v@),
    {
        let ghost vv = v@;
        self.elems.push(v);
        proof {
            assert(self@ =~= old(self)@.push(vv));
        }
    }

    /// Remove and return the first element. The chain layer never calls this
    /// on an empty block (blocks are never persisted empty), so emptiness is
    /// excluded here rather than reported.
    pub fn pop_left(&mut self) -> (r: Vec<u8>)
        requires
            old(self)@.len() > 0,
        ensures
            r@ == old(self)@[0],
            final(self)@ == old(self)@.drop_first(),
    {
        let r = self.elems.remove(0);
        proof {
            assert(self@ =~= old(self)@.drop_first());
        }
        r
    }

    /// Remove and return the last element; emptiness is excluded as above.
    pub fn pop_right(&mut self) -> (r: Vec<u8>)
        requires
            old(self)@.len() > 0,
        ensures
            r@ == old(self)@.last(),
            final(self)@ == old(self)@.drop_last(),
    {
        let i = self.elems.len() - 1;
        let r = self.elems.remove(i);
        proof {
            assert(self@ =~= old(self)@.drop_last());
        }
        r
    }

    /// Overwrite the element at position `i`.
    pub fn set(&mut self, i: usize, v: Vec<u8>)
        requires
            i < old(self)@.len(),
        ensures
            final(self)@ == old(self)@.update(i as int, v@),
    {
        let ghost vv = v@;
        let _ = self.elems.remove(i);
        self.elems.insert(i, v);
        proof {
            assert(self@ =~= old(self)@.update(i as int, vv));
        }
    }

    /// Insert an element at position `i`, shifting the rest right.
    pub fn insert_at(&mut self, i: usize, v: Vec<u8>)
        requires
            i <= old(self)@.len(),
        ensures
            final(self)@ == old(self)@.insert(i as int, v@),
    {
        let ghost vv = v@;
        self.elems.insert(i, v);
        proof {
            assert(self@ =~= old(self)@.insert(i as int, vv));
        }
    }

    /// Position of the first element equal to `p`, if any.
    pub fn find_first(&self, p: &Vec<u8>) -> (r: Option<usize>)
        ensures
            match r {
                Some(i) => i < self@.len() && self@[i as int] == p@ && forall|j: int|
                    0 <= j < i ==> self@[j] != p@,
                None => forall|j: int| 0 <= j < self@.len() ==> self@[j] != p@,
            },
    {
        let mut i: usize = 0;
        while i < self.elems.len()
            invariant
                i <= self@.len(),
                forall|j: int| 0 <= j < i ==> self@[j] != p@,
            decreases self@.len() - i,
        {
            if bytes_eq(&self.elems[i], p) {
                return Some(i);
            }
            i += 1;
        }
        None
    }

    /// The inclusive slice `[start, stop]`; the caller guarantees the bounds.
    pub fn range(&self, start: usize, stop: usize) -> (r: Vec<Vec<u8>>)
        requires
            start <= stop < self@.len(),
        ensures
            r@.map_values(|e: Vec<u8>| e@) == self@.subrange(start as int, stop + 1),
    {
        let n = self.len();
        let mut r: Vec<Vec<u8>> = Vec::new();
        let mut i: usize = start;
        while i <= stop
            invariant
                start <= i <= stop + 1,
                stop < n == self@.len(),
                r@.map_values(|e: Vec<u8>| e@) =~= self@.subrange(start as int, i as int),
            decreases stop + 1 - i,
        {
            let ghost before = r@.map_values(|e: Vec<u8>| e@);
            r.push(clone_bytes(self.get(i)));
            proof {
                assert(r@.map_values(|e: Vec<u8>| e@) =~= before.push(self@[i as int]));
                assert(before.push(self@[i as int]) =~= self@.subrange(start as int, i + 1));
            }
            i += 1;
        }
        r
    }

    /// Remove, scanning head to tail, up to `k` elements equal to `v`
    /// (`k == None`: remove every match); returns how many were removed.
    pub fn rem_left(&mut self, k: Option<u32>, v: &Vec<u8>) -> (n: u32)
        requires
            old(self)@.len() <= u32::MAX,
        ensures
            final(self)@ == rem_fwd(old(self)@, bspec(k), v@),
            n as nat == cnt_fwd(old(self)@, bspec(k), v@),
    {
        let ghost orig = self@;
        let ghost k0 = bspec(k);
        let mut removed: u32 = 0;
        let mut i: usize = 0;
        let ghost mut j: int = 0;
        proof {
            assert(orig.take(0) =~= Seq::<Seq<u8>>::empty());
            assert(orig.skip(0) =~= orig);
            assert(self@ =~= rem_fwd(orig.take(0), k0, v@) + orig.skip(0));
        }
        while i < self.elems.len()
            invariant
                old(self)@.len() <= u32::MAX,
                orig == old(self)@,
                k0 == bspec(k),
                0 <= j <= orig.len(),
                self@ == rem_fwd(orig.take(j), k0, v@) + orig.skip(j),
                i as int == rem_fwd(orig.take(j), k0, v@).len(),
                removed as nat == cnt_fwd(orig.take(j), k0, v@),
            decreases orig.len() - j,
        {
            proof {
                assert(self@[i as int] == orig.skip(j)[0]);
                assert(orig.skip(j)[0] == orig[j]);
            }
            let ghost pre = rem_fwd(orig.take(j), k0, v@);
            let ghost kk = budget_sub(k0, cnt_fwd(orig.take(j), k0, v@));
            let is_match = bytes_eq(&self.elems[i], v);
            let more: bool = match k {
                Some(b) => removed < b,
                None => true,
            };
            if is_match && !more {
                // The budget is spent: everything to the right survives.
                proof {
                    assert(kk == Some(0nat));
                    lemma_rem_fwd_concat(orig.take(j), orig.skip(j), k0, v@);
                    assert(orig.take(j) + orig.skip(j) =~= orig);
                    assert(rem_fwd(orig.skip(j), kk, v@) == orig.skip(j));
                }
                return removed;
            }
            proof {
                assert(orig.take(j + 1) =~= orig.take(j) + seq![orig[j]]);
                lemma_rem_fwd_concat(orig.take(j), seq![orig[j]], k0, v@);
                lemma_cnt_fwd_le_len(orig.take(j), k0, v@);
            }
            if is_match {
                proof {
                    assert(orig[j] == v@);
                    assert(kk != Some(0nat));
                    assert(seq![orig[j]].drop_first() =~= Seq::<Seq<u8>>::empty());
                    assert(rem_fwd(Seq::<Seq<u8>>::empty(), budget_dec(kk), v@)
                        =~= Seq::<Seq<u8>>::empty());
                    assert(cnt_fwd(Seq::<Seq<u8>>::empty(), budget_dec(kk), v@) == 0);
                    assert(rem_fwd(seq![orig[j]], kk, v@) =~= Seq::<Seq<u8>>::empty());
                    assert(cnt_fwd(seq![orig[j]], kk, v@) == 1);
                }
                let ghost bv = self@;
                let _ = self.elems.remove(i);
                proof {
                    let jo = j;
                    j = j + 1;
                    assert(rem_fwd(orig.take(j), k0, v@) =~= pre);
                    assert(self.elems@.map_values(|e: Vec<u8>| e@) =~= bv.remove(i as int));
                    assert(bv.remove(i as int) =~= pre + orig.skip(jo + 1));
                    assert(self@ =~= pre + orig.skip(j));
                }
                removed += 1;
            } else {
                proof {
                    assert(orig[j] != v@);
                    assert(seq![orig[j]].drop_first() =~= Seq::<Seq<u8>>::empty());
                    assert(rem_fwd(Seq::<Seq<u8>>::empty(), kk, v@) =~= Seq::<Seq<u8>>::empty());
                    assert(cnt_fwd(Seq::<Seq<u8>>::empty(), kk, v@) == 0);
                    assert(rem_fwd(seq![orig[j]], kk, v@) =~= seq![orig[j]]);
                    assert(cnt_fwd(seq![orig[j]], kk, v@) == 0);
                }
                i += 1;
                proof {
                    let jo = j;
                    j = j + 1;
                    assert(rem_fwd(orig.take(j), k0, v@) =~= pre + seq![orig[jo]]);
                    assert(self@ =~= (pre + seq![orig[jo]]) + orig.skip(j));
                }
            }
        }
        proof {
            assert(orig.skip(j).len() == 0);
            assert(j == orig.len());
            assert(orig.take(j) =~= orig);
            assert(self@ =~= rem_fwd(orig, k0, v@));
        }
        removed
    }

    /// Remove, scanning tail to head, up to `k` elements equal to `v`;
    /// returns how many were removed. Survivors keep their order.
    pub fn rem_right(&mut self, k: Option<u32>, v: &Vec<u8>) -> (n: u32)
        requires
            old(self)@.len() <= u32::MAX,
        ensures
            final(self)@ == rem_bwd(old(self)@, bspec(k), v@),
            n as nat == cnt_bwd(old(self)@, bspec(k), v@),
    {
        let ghost orig = self@;
        let ghost k0 = bspec(k);
        let mut removed: u32 = 0;
        let mut i: usize = self.elems.len();
        let ghost mut j: int = orig.len() as int;
        proof {
            assert(orig.take(orig.len() as int) =~= orig);
            assert(orig.skip(orig.len() as int) =~= Seq::<Seq<u8>>::empty());
            assert(self@ =~= orig.take(j) + rem_bwd(orig.skip(j), k0, v@));
        }
        while i > 0
            invariant
                old(self)@.len() <= u32::MAX,
                orig == old(self)@,
                k0 == bspec(k),
                0 <= j <= orig.len(),
                i as int == j,
                self@ == orig.take(j) + rem_bwd(orig.skip(j), k0, v@),
                removed as nat == cnt_bwd(orig.skip(j), k0, v@),
            decreases j,
        {
            proof {
                assert(self.elems@.len() == self@.len());
                assert(self@.len() == j + rem_bwd(orig.skip(j), k0, v@).len());
                assert(self@[i - 1] == orig.take(j)[j - 1]);
                assert(orig.take(j)[j - 1] == orig[j - 1]);
            }
            let ghost suf = rem_bwd(orig.skip(j), k0, v@);
            let ghost kk = budget_sub(k0, cnt_bwd(orig.skip(j), k0, v@));
            let is_match = bytes_eq(&self.elems[i - 1], v);
            let more: bool = match k {
                Some(b) => removed < b,
                None => true,
            };
            if is_match && !more {
                // The budget is spent: everything to the left survives.
                proof {
                    assert(kk == Some(0nat));
                    lemma_rem_bwd_concat(orig.take(j), orig.skip(j), k0, v@);
                    assert(orig.take(j) + orig.skip(j) =~= orig);
                    assert(rem_bwd(orig.take(j), kk, v@) == orig.take(j));
                }
                return removed;
            }
            proof {
                assert(orig.skip(j - 1) =~= seq![orig[j - 1]] + orig.skip(j));
                lemma_rem_bwd_concat(seq![orig[j - 1]], orig.skip(j), k0, v@);
                lemma_cnt_bwd_le_len(orig.skip(j), k0, v@);
            }
            if is_match {
                proof {
                    assert(orig[j - 1] == v@);
                    assert(kk != Some(0nat));
                    assert(seq![orig[j - 1]].drop_last() =~= Seq::<Seq<u8>>::empty());
                    assert(rem_bwd(Seq::<Seq<u8>>::empty(), budget_dec(kk), v@)
                        =~= Seq::<Seq<u8>>::empty());
                    assert(cnt_bwd(Seq::<Seq<u8>>::empty(), budget_dec(kk), v@) == 0);
                    assert(rem_bwd(seq![orig[j - 1]], kk, v@) =~= Seq::<Seq<u8>>::empty());
                    assert(cnt_bwd(seq![orig[j - 1]], kk, v@) == 1);
                }
                let ghost bv = self@;
                let _ = self.elems.remove(i - 1);
                removed += 1;
                i -= 1;
                proof {
                    let jo = j;
                    j = j - 1;
                    assert(rem_bwd(orig.skip(j), k0, v@) =~= suf);
                    assert(self.elems@.map_values(|e: Vec<u8>| e@) =~= bv.remove(jo - 1));
                    assert(bv.remove(jo - 1) =~= orig.take(jo - 1) + suf);
                    assert(self@ =~= orig.take(j) + suf);
                }
            } else {
                proof {
                    assert(orig[j - 1] != v@);
                    assert(seq![orig[j - 1]].drop_last() =~= Seq::<Seq<u8>>::empty());
                    assert(rem_bwd(Seq::<Seq<u8>>::empty(), kk, v@) =~= Seq::<Seq<u8>>::empty());
                    assert(cnt_bwd(Seq::<Seq<u8>>::empty(), kk, v@) == 0);
                    assert(rem_bwd(seq![orig[j - 1]], kk, v@) =~= seq![orig[j - 1]]);
                    assert(cnt_bwd(seq![orig[j - 1]], kk, v@) == 0);
                }
                i -= 1;
                proof {
                    let jo = j;
                    j = j - 1;
                    assert(rem_bwd(orig.skip(j), k0, v@) =~= seq![orig[jo - 1]] + suf);
                    assert(self@ =~= orig.take(j) + (seq![orig[jo - 1]] + suf));
                }
            }
        }
        proof {
            assert(j == 0);
            assert(orig.skip(0) =~= orig);
            assert(orig.take(0) =~= Seq::<Seq<u8>>::empty());
            assert(self@ =~= rem_bwd(orig, k0, v@));
        }
        removed
    }
}

/// A fresh copy of a byte string.
pub fn clone_bytes(v: &Vec<u8>) -> (r: Vec<u8>)
    ensures
        r@ == v@,
{
    let mut r: Vec<u8> = Vec::new();
    let mut i: usize = 0;
    while i < v.len()
        invariant
            i <= v.len(),
            r@ == v@.take(i as int),
        decreases v.len() - i,
    {
        r.push(v[i]);
        proof {
            assert(r@ =~= v@.take(i + 1));
        }
        i += 1;
    }
    proof {
        assert(v@.take(v@.len() as int) =~= v@);
    }
    r
}

/// The local inclusive sub-range of a block spanning
/// `[block_off, block_off + block_len)` that overlaps the global window
/// `[lo, hi]`, or none when they are disjoint.
pub fn intersect_window(block_len: u64, block_off: u64, lo: u64, hi: u64) -> (r: Option<
    (u64, u64),
>)
    requires
        block_len > 0,
        block_off + block_len <= u64::MAX,
        lo <= hi,
    ensures
        match r {
            Some(p) => {
                &&& block_off <= hi
                &&& lo < block_off + block_len
                &&& p.0 == (if lo > block_off {
                    lo - block_off
                } else {
                    0
                })
                &&& p.1 == (if hi < block_off + block_len - 1 {
                    hi - block_off
                } else {
                    block_len - 1
                })
                &&& p.0 <= p.1 < block_len
            },
            None => block_off > hi || lo >= block_off + block_len,
        },
{
    if block_off > hi || lo >= block_off + block_len {
        return None;
    }
    let s: u64 = if lo > block_off {
        lo - block_off
    } else {
        0
    };
    let e: u64 = if hi < block_off + block_len - 1 {
        hi - block_off
    } else {
        block_len - 1
    };
    Some((s, e))
}

} // verus!
