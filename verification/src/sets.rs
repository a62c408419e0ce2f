//! Sets of symbol numbers.
use vstd::prelude::*;
use std::collections::HashSet;
use vstd::std_specs::iter::IteratorSpec;

verus! {

broadcast use vstd::std_specs::hash::group_hash_axioms;

/// The views of a sequence of sets.
pub open spec fn sets_view(v: Seq<HashSet<i32>>) -> Seq<Set<i32>> {
    v.map_values(|s: HashSet<i32>| s@)
}

/// Adds every element of `src` to `dst`.
pub fn set_extend(dst: &mut HashSet<i32>, src: &HashSet<i32>)
    ensures
        final(dst)@ == old(dst)@.union(src@),
{
    let ghost d0 = dst@;
    let iter = src.iter();
    assert(iter.remaining().unref().to_set() == src@);
    for x in it: iter
        invariant
            dst@ == d0.union(it.seq().take(it.index() as int).unref().to_set()),
            it.seq().unref().to_set() == src@,
            it.seq().take(it.seq().len() as int) == it.seq(),
    {
        let ghost i = it.index();
        dst.insert(*x);
        assert(it.seq()[i as int] == x);
        let ghost pre = it.seq().take(i as int).unref();
        assert(it.seq().take(i + 1).unref() =~= pre.push(*x));
        proof {
            pre.lemma_push_to_set_commute(*x);
        }
        assert(dst@ =~= d0.union(it.seq().take(i + 1).unref().to_set()));
    }
}

/// `n` empty sets.
pub fn empty_sets(n: usize) -> (r: Vec<HashSet<i32>>)
    ensures
        sets_view(r@) == Seq::new(n as nat, |i: int| Set::<i32>::empty()),
{
    let mut r: Vec<HashSet<i32>> = Vec::new();
    let mut i: usize = 0;
    while i < n
        invariant
            i <= n,
            sets_view(r@) == Seq::new(i as nat, |k: int| Set::<i32>::empty()),
        decreases n - i,
    {
        let ghost r0 = sets_view(r@);
        let s: HashSet<i32> = HashSet::new();
        assert(s@ == Set::<i32>::empty());
        r.push(s);
        assert(sets_view(r@) =~= r0.push(Set::<i32>::empty()));
        i = i + 1;
        assert(sets_view(r@) =~= Seq::new(i as nat, |k: int| Set::<i32>::empty()));
    }
    r
}

/// `n` flags, all false.
pub fn false_flags(n: usize) -> (r: Vec<bool>)
    ensures
        r@ == Seq::new(n as nat, |i: int| false),
{
    let mut r: Vec<bool> = Vec::new();
    let mut i: usize = 0;
    while i < n
        invariant
            i <= n,
            r@ == Seq::new(i as nat, |k: int| false),
        decreases n - i,
    {
        r.push(false);
        i = i + 1;
        assert(r@ =~= Seq::new(i as nat, |k: int| false));
    }
    r
}

/// The number of flags of `p` that are false.
pub open spec fn count_false(p: Seq<bool>) -> nat
    decreases p.len(),
{
    if p.len() == 0 {
        0
    } else {
        count_false(p.drop_last()) + if p.last() {
            0nat
        } else {
            1nat
        }
    }
}

pub proof fn lemma_count_false_set(p: Seq<bool>, i: int)
    requires
        0 <= i < p.len(),
    ensures
        count_false(p.update(i, true)) == count_false(p) - (if p[i] {
            0int
        } else {
            1int
        }),
        count_false(p) <= p.len(),
    decreases p.len(),
{
    if i == p.len() - 1 {
        assert(p.update(i, true).drop_last() =~= p.drop_last());
        lemma_count_false_le(p.drop_last());
    } else {
        assert(p.update(i, true).drop_last() =~= p.drop_last().update(i, true));
        lemma_count_false_set(p.drop_last(), i);
    }
}

pub proof fn lemma_count_false_le(p: Seq<bool>)
    ensures
        count_false(p) <= p.len(),
    decreases p.len(),
{
    if p.len() > 0 {
        lemma_count_false_le(p.drop_last());
    }
}

} // verus!
