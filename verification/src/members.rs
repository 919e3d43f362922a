//! Small services on hash sets: listing, copying, taking the only member.

use vstd::prelude::*;
use std::collections::HashSet;
use vstd::std_specs::iter::IteratorSpec;

verus! {

/// The members of `set` from `1` to `largest`, in rising order.
pub(crate) fn digits_in(set: &HashSet<u8>, largest: u8) -> (items: Vec<u8>)
    ensures
        forall|d: u8| items@.contains(d) <==> set@.contains(d) && 1 <= d <= largest,
        forall|a: int, b: int| 0 <= a < b < items@.len() ==> items@[a] < items@[b],
{
    broadcast use vstd::std_specs::hash::group_hash_axioms;

    let mut items: Vec<u8> = Vec::new();
    let mut digit: u8 = 0;
    while digit < largest
        invariant
            digit <= largest,
            forall|d: u8| items@.contains(d) <==> set@.contains(d) && 1 <= d <= digit,
            forall|a: int, b: int| 0 <= a < b < items@.len() ==> items@[a] < items@[b],
            forall|a: int| 0 <= a < items@.len() ==> items@[a] <= digit,
        decreases largest - digit,
    {
        digit += 1;
        let ghost before = items@;
        if set.contains(&digit) {
            items.push(digit);
            assert(items@[before.len() as int] == digit);
        }
        assert forall|d: u8| items@.contains(d) <==> set@.contains(d) && 1 <= d <= digit by {
            if before.contains(d) {
                let a = choose|a: int| 0 <= a < before.len() && before[a] == d;
                assert(items@[a] == d);
            }
            if items@.contains(d) {
                let a = choose|a: int| 0 <= a < items@.len() && items@[a] == d;
                if a < before.len() {
                    assert(before[a] == d);
                }
            }
        }
    }
    items
}

/// A set of cells is finite.
pub(crate) proof fn lemma_cells_finite(set: &HashSet<usize>)
    ensures
        set@.finite(),
{
    broadcast use vstd::std_specs::hash::group_hash_axioms;
    broadcast use vstd::seq_lib::seq_to_set_is_finite;

    let all = set.iter().remaining().unref();
    assert(all.to_set() == set@);
}

/// A set with the same members.
pub(crate) fn copy_of(set: &HashSet<usize>) -> (copy: HashSet<usize>)
    ensures
        copy@ == set@,
{
    broadcast use vstd::std_specs::hash::group_hash_axioms;

    let ghost all = set.iter().remaining().unref();
    let mut copy: HashSet<usize> = HashSet::new();
    for k in it: set.iter()
        invariant
            it.seq().unref() == all,
            copy@ == all.take(it.index() as int).to_set(),
    {
        let ghost before = all.take(it.index() as int);
        let ghost longer = before.push(*k);
        copy.insert(*k);
        assert(all.take(it.index() + 1) =~= longer);
        assert(longer.to_set() =~= before.to_set().insert(*k)) by {
            assert forall|x: usize|
                longer.to_set().contains(x) <==> before.to_set().insert(*k).contains(x) by {
                if longer.to_set().contains(x) {
                    let a = choose|a: int| 0 <= a < longer.len() && longer[a] == x;
                    if a < before.len() {
                        assert(before[a] == x);
                    }
                }
                if before.to_set().contains(x) {
                    let a = choose|a: int| 0 <= a < before.len() && before[a] == x;
                    assert(longer[a] == x);
                }
                if x == *k {
                    assert(longer[before.len() as int] == x);
                }
            }
        }
    }
    assert(all.take(all.len() as int) =~= all);
    copy
}

/// The member of a set that has exactly one.
pub(crate) fn only_member(set: &HashSet<u8>) -> (member: u8)
    requires
        set@.finite(),
        set@.len() == 1,
    ensures
        set@ =~= set![member],
{
    broadcast use vstd::std_specs::hash::group_hash_axioms;

    let ghost all = set.iter().remaining().unref();
    let mut member: u8 = 0;
    for d in it: set.iter()
        invariant
            it.seq().unref() == all,
            it.index() > 0 ==> member == all[it.index() - 1],
    {
        member = *d;
    }
    proof {
        assert(all.to_set().contains(all[0]));
        Set::lemma_is_singleton(set@);
    }
    member
}

} // verus!
