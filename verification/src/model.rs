//! The mathematical model of the operations: every engine contract states
//! its effect through these functions of the stored sequence alone, and the
//! laws relating operations are proved here once, over the model.
use vstd::prelude::*;
use crate::block::{resolve_index, rem_fwd, rem_bwd, cnt_fwd, cnt_bwd, budget_dec, budget_sub,
    lemma_rem_fwd_concat};

verus! {

/// A stored list, or the empty sequence when there is none.
pub open spec fn opt_list(l: Option<Seq<Seq<u8>>>) -> Seq<Seq<u8>> {
    match l {
        None => Seq::empty(),
        Some(s) => s,
    }
}

/// A list that has emptied is gone: its head record is deleted outright.
pub open spec fn norm(s: Seq<Seq<u8>>) -> Option<Seq<Seq<u8>>> {
    if s.len() == 0 {
        None
    } else {
        Some(s)
    }
}

pub open spec fn m_llen(l: Option<Seq<Seq<u8>>>) -> Option<nat> {
    match l {
        None => None,
        Some(s) => Some(s.len()),
    }
}

pub open spec fn m_lpush(l: Option<Seq<Seq<u8>>>, v: Seq<u8>) -> Seq<Seq<u8>> {
    seq![v] + opt_list(l)
}

pub open spec fn m_rpush(l: Option<Seq<Seq<u8>>>, v: Seq<u8>) -> Seq<Seq<u8>> {
    opt_list(l).push(v)
}

pub open spec fn m_lpop_value(l: Option<Seq<Seq<u8>>>) -> Option<Seq<u8>> {
    match l {
        None => None,
        Some(s) => if s.len() == 0 {
            None
        } else {
            Some(s[0])
        },
    }
}

pub open spec fn m_lpop_rest(l: Option<Seq<Seq<u8>>>) -> Option<Seq<Seq<u8>>> {
    match l {
        None => None,
        Some(s) => norm(s.drop_first()),
    }
}

pub open spec fn m_rpop_value(l: Option<Seq<Seq<u8>>>) -> Option<Seq<u8>> {
    match l {
        None => None,
        Some(s) => if s.len() == 0 {
            None
        } else {
            Some(s.last())
        },
    }
}

pub open spec fn m_rpop_rest(l: Option<Seq<Seq<u8>>>) -> Option<Seq<Seq<u8>>> {
    match l {
        None => None,
        Some(s) => norm(s.drop_last()),
    }
}

pub open spec fn m_lindex(l: Option<Seq<Seq<u8>>>, i: int) -> Option<Seq<u8>> {
    match l {
        None => None,
        Some(s) => {
            let r = resolve_index(s.len() as int, i);
            if 0 <= r < s.len() {
                Some(s[r])
            } else {
                None
            }
        },
    }
}

/// The resolved window of `lrange` and `ltrim`: both endpoints resolved
/// against the length, the start clamped up to the head, the stop clamped
/// down to the tail; empty when the resolved start exceeds the resolved stop.
pub open spec fn m_lrange(l: Option<Seq<Seq<u8>>>, start: int, stop: int) -> Seq<Seq<u8>> {
    match l {
        None => Seq::empty(),
        Some(s) => {
            let a = resolve_index(s.len() as int, start);
            let b = resolve_index(s.len() as int, stop);
            let lo = if a > 0 {
                a
            } else {
                0
            };
            let hi = if b < s.len() - 1 {
                b
            } else {
                s.len() - 1
            };
            if s.len() == 0 || a > b || lo > hi {
                Seq::empty()
            } else {
                s.subrange(lo, hi + 1)
            }
        },
    }
}

/// Survivors of removal by value: positive count scans head to tail under
/// that budget, negative scans tail to head under its magnitude, zero
/// removes every match.
pub open spec fn m_lrem_rest(l: Option<Seq<Seq<u8>>>, count: int, v: Seq<u8>) -> Seq<Seq<u8>> {
    let s = opt_list(l);
    if count > 0 {
        rem_fwd(s, Some(count as nat), v)
    } else if count < 0 {
        rem_bwd(s, Some((-count) as nat), v)
    } else {
        rem_fwd(s, None, v)
    }
}

pub open spec fn m_lrem_cnt(l: Option<Seq<Seq<u8>>>, count: int, v: Seq<u8>) -> nat {
    let s = opt_list(l);
    if count > 0 {
        cnt_fwd(s, Some(count as nat), v)
    } else if count < 0 {
        cnt_bwd(s, Some((-count) as nat), v)
    } else {
        cnt_fwd(s, None, v)
    }
}

/// Index of the first element equal to `p`, or `-1` when none matches.
pub open spec fn first_idx(s: Seq<Seq<u8>>, p: Seq<u8>) -> int
    decreases s.len(),
{
    if s.len() == 0 {
        -1
    } else if s[0] == p {
        0
    } else {
        let r = first_idx(s.drop_first(), p);
        if r < 0 {
            -1
        } else {
            r + 1
        }
    }
}

pub proof fn lemma_first_idx_props(s: Seq<Seq<u8>>, p: Seq<u8>)
    ensures
        -1 <= first_idx(s, p) < s.len(),
        first_idx(s, p) >= 0 ==> s[first_idx(s, p)] == p && (forall|j: int|
            0 <= j < first_idx(s, p) ==> s[j] != p),
        first_idx(s, p) == -1 ==> (forall|j: int| 0 <= j < s.len() ==> s[j] != p),
    decreases s.len(),
{
    if s.len() == 0 {
    } else if s[0] == p {
    } else {
        let d = s.drop_first();
        lemma_first_idx_props(d, p);
        let r = first_idx(d, p);
        if r >= 0 {
            assert(first_idx(s, p) == r + 1);
            assert(s[r + 1] == d[r]);
            assert forall|j: int| 0 <= j < r + 1 implies s[j] != p by {
                if j > 0 {
                    assert(s[j] == d[j - 1]);
                }
            }
        } else {
            assert forall|j: int| 0 <= j < s.len() implies s[j] != p by {
                if j > 0 {
                    assert(s[j] == d[j - 1]);
                }
            }
        }
    }
}

/// Insertion next to the first pivot occurrence; the list is unchanged when
/// the pivot is absent.
pub open spec fn m_linsert(l: Option<Seq<Seq<u8>>>, after: bool, p: Seq<u8>, v: Seq<u8>) -> Seq<
    Seq<u8>,
> {
    let s = opt_list(l);
    let f = first_idx(s, p);
    if f < 0 {
        s
    } else if after {
        s.insert(f + 1, v)
    } else {
        s.insert(f, v)
    }
}

pub open spec fn m_linsert_cnt(l: Option<Seq<Seq<u8>>>, p: Seq<u8>) -> nat {
    if l is Some && first_idx(opt_list(l), p) >= 0 {
        1
    } else {
        0
    }
}

// ---------------------------------------------------------------------------
// Laws.
// ---------------------------------------------------------------------------

/// A push at either end grows the length by exactly one; with a pop's effect
/// below, the length after any sequence of pushes and pops is the number of
/// pushes not yet cancelled by a pop.
pub proof fn lemma_llen_push(l: Option<Seq<Seq<u8>>>, v: Seq<u8>)
    ensures
        m_lpush(l, v).len() == opt_list(l).len() + 1,
        m_rpush(l, v).len() == opt_list(l).len() + 1,
{
}

/// A pop from a non-empty list returns a value and shrinks the length by
/// exactly one.
pub proof fn lemma_llen_pop(l: Option<Seq<Seq<u8>>>)
    requires
        opt_list(l).len() > 0,
        l is Some,
    ensures
        m_lpop_value(l) is Some,
        m_rpop_value(l) is Some,
        opt_list(m_lpop_rest(l)).len() == opt_list(l).len() - 1,
        opt_list(m_rpop_rest(l)).len() == opt_list(l).len() - 1,
{
    let s = opt_list(l);
    if s.drop_first().len() == 0 {
    }
    if s.drop_last().len() == 0 {
    }
}

/// Same-end round trip is LIFO: a pop right after a push at the same end
/// returns the pushed value and restores the list exactly.
pub proof fn lemma_push_pop_lifo(l: Option<Seq<Seq<u8>>>, v: Seq<u8>)
    requires
        l is Some ==> opt_list(l).len() > 0,
    ensures
        m_lpop_value(Some(m_lpush(l, v))) == Some(v),
        m_lpop_rest(Some(m_lpush(l, v))) == l,
        m_rpop_value(Some(m_rpush(l, v))) == Some(v),
        m_rpop_rest(Some(m_rpush(l, v))) == l,
{
    assert(m_lpush(l, v)[0] == v);
    assert(m_lpush(l, v).drop_first() =~= opt_list(l));
    assert(m_rpush(l, v).drop_last() =~= opt_list(l));
}

/// Opposite-end round trip is FIFO: after a push at the tail, a pop at the
/// head returns the oldest element, not the pushed one (unless the list was
/// empty, when they coincide).
pub proof fn lemma_push_pop_fifo(l: Option<Seq<Seq<u8>>>, v: Seq<u8>)
    requires
        l is Some ==> opt_list(l).len() > 0,
    ensures
        m_lpop_value(Some(m_rpush(l, v))) == (match l {
            None => Some(v),
            Some(s) => Some(s[0]),
        }),
        m_lpop_rest(Some(m_rpush(l, v))) == (match l {
            None => None::<Seq<Seq<u8>>>,
            Some(s) => Some(s.drop_first().push(v)),
        }),
{
    let s = opt_list(l);
    assert(m_rpush(l, v)[0] == if s.len() == 0 {
        v
    } else {
        s[0]
    });
    if s.len() == 0 {
        assert(m_rpush(l, v).drop_first() =~= Seq::<Seq<u8>>::empty());
    } else {
        assert(m_rpush(l, v).drop_first() =~= s.drop_first().push(v));
    }
}

/// The full range, head to tail, is the whole list, whatever the chain
/// layout underneath.
pub proof fn lemma_lrange_full(l: Option<Seq<Seq<u8>>>)
    ensures
        m_lrange(l, 0, -1) == opt_list(l),
{
    match l {
        None => {},
        Some(s) => {
            if s.len() == 0 {
                assert(m_lrange(l, 0, -1) =~= s);
            } else {
                assert(s.subrange(0, s.len() as int) =~= s);
            }
        },
    }
}

/// Index `-1` names the last element of the full range; any index that
/// resolves outside the list yields nothing.
pub proof fn lemma_lindex_last(l: Option<Seq<Seq<u8>>>)
    requires
        opt_list(l).len() > 0,
    ensures
        m_lindex(l, -1) == Some(m_lrange(l, 0, -1).last()),
{
    lemma_lrange_full(l);
}

pub proof fn lemma_lindex_out_of_range(l: Option<Seq<Seq<u8>>>, i: int)
    requires
        ({
            let r = resolve_index(opt_list(l).len() as int, i);
            r < 0 || r >= opt_list(l).len()
        }),
    ensures
        m_lindex(l, i) == None::<Seq<u8>>,
{
}

/// Popping the last element removes the list record outright: the length
/// query then reports "no such list", not zero.
pub proof fn lemma_pop_last_removes(s: Seq<Seq<u8>>)
    requires
        s.len() == 1,
    ensures
        m_lpop_rest(Some(s)) == None::<Seq<Seq<u8>>>,
        m_rpop_rest(Some(s)) == None::<Seq<Seq<u8>>>,
        m_llen(m_lpop_rest(Some(s))) == None::<nat>,
{
}

/// Unbounded removal removes every occurrence of the value and nothing
/// else, keeping the survivors in order: it is exactly a filter.
pub proof fn lemma_lrem_all_is_filter(s: Seq<Seq<u8>>, v: Seq<u8>)
    ensures
        rem_fwd(s, None, v) == s.filter(|x: Seq<u8>| x != v),
        cnt_fwd(s, None, v) == s.len() - s.filter(|x: Seq<u8>| x != v).len(),
    decreases s.len(),
{
    let p = |x: Seq<u8>| x != v;
    reveal_with_fuel(Seq::<Seq<u8>>::filter, 2);
    if s.len() == 0 {
        assert(s.filter(p) =~= s);
    } else {
        let d = s.drop_last();
        let x = s.last();
        lemma_lrem_all_is_filter(d, v);
        assert(s =~= d + seq![x]);
        lemma_rem_fwd_concat(d, seq![x], None, v);
        assert(budget_sub(None, cnt_fwd(d, None, v)) == None::<nat>);
        assert(seq![x].drop_first() =~= Seq::<Seq<u8>>::empty());
        assert(rem_fwd(Seq::<Seq<u8>>::empty(), None, v) =~= Seq::<Seq<u8>>::empty());
        assert(cnt_fwd(Seq::<Seq<u8>>::empty(), None, v) == 0);
        if x == v {
            assert(rem_fwd(seq![x], None, v) =~= Seq::<Seq<u8>>::empty());
            assert(cnt_fwd(seq![x], None, v) == 1);
            assert(rem_fwd(d, None, v) + Seq::<Seq<u8>>::empty() =~= rem_fwd(d, None, v));
            assert(s.filter(p) == d.filter(p));
        } else {
            assert(rem_fwd(seq![x], None, v) =~= seq![x]);
            assert(cnt_fwd(seq![x], None, v) == 0);
            assert(s.filter(p) == d.filter(p).push(x));
            assert(rem_fwd(d, None, v) + seq![x] =~= d.filter(p).push(x));
        }
    }
}

} // verus!
