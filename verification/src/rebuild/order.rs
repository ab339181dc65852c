//! The order in which synthesized packets leave.
use vstd::prelude::*;
use vstd::relations::{sorted_by, total_ordering};
use vstd::seq_lib::{
    group_to_multiset_ensures, lemma_multiset_commutative, lemma_sorted_unique, to_multiset_build,
};

verus! {

/// When a packet is due: at a time, in a phase of its connection, and behind
/// those that were planned before it.
#[derive(Debug, Clone, Copy, PartialEq, Eq, Structural)]
pub struct Slot {
    pub due: u64,
    pub phase: u8,
    pub index: usize,
}

/// Whether the first slot does not come after the second.
pub open spec fn slot_le(a: Slot, b: Slot) -> bool {
    a.due < b.due || (a.due == b.due && (a.phase < b.phase || (a.phase == b.phase && a.index
        <= b.index)))
}

/// The same as a relation.
pub open spec fn slot_order() -> spec_fn(Slot, Slot) -> bool {
    |a: Slot, b: Slot| slot_le(a, b)
}

fn is_le(a: &Slot, b: &Slot) -> (r: bool)
    ensures
        r == slot_le(*a, *b),
{
    a.due < b.due || (a.due == b.due && (a.phase < b.phase || (a.phase == b.phase && a.index
        <= b.index)))
}

/// The order of slots is total.
pub proof fn lemma_slot_order()
    ensures
        total_ordering(slot_order()),
{
}

/// Merges two sorted lists.
fn merge(a: &[Slot], b: &[Slot]) -> (r: Vec<Slot>)
    requires
        sorted_by(a@, slot_order()),
        sorted_by(b@, slot_order()),
    ensures
        sorted_by(r@, slot_order()),
        r@.to_multiset() == a@.to_multiset().add(b@.to_multiset()),
{
    broadcast use group_to_multiset_ensures;

    let mut out: Vec<Slot> = Vec::new();
    let mut i: usize = 0;
    let mut j: usize = 0;
    assert(a@.take(0) =~= Seq::<Slot>::empty());
    assert(b@.take(0) =~= Seq::<Slot>::empty());
    assert(out@.to_multiset() =~= a@.take(0).to_multiset().add(b@.take(0).to_multiset()));
    while i < a.len() || j < b.len()
        invariant
            i <= a@.len(),
            j <= b@.len(),
            sorted_by(a@, slot_order()),
            sorted_by(b@, slot_order()),
            sorted_by(out@, slot_order()),
            forall|x: int, y: int|
                0 <= x < out@.len() && i <= y < a@.len() ==> slot_le(
                    #[trigger] out@[x],
                    #[trigger] a@[y],
                ),
            forall|x: int, y: int|
                0 <= x < out@.len() && j <= y < b@.len() ==> slot_le(
                    #[trigger] out@[x],
                    #[trigger] b@[y],
                ),
            out@.to_multiset() == a@.take(i as int).to_multiset().add(
                b@.take(j as int).to_multiset(),
            ),
        decreases a@.len() - i + b@.len() - j,
    {
        let ghost before = out@;
        if j >= b.len() || (i < a.len() && is_le(&a[i], &b[j])) {
            let s: Slot = a[i];
            out.push(s);
            proof {
                assert(a@.take(i + 1) =~= a@.take(i as int).push(s));
                assert(out@ =~= before.push(s));
                to_multiset_build(a@.take(i as int), s);
                to_multiset_build(before, s);
                assert(out@.to_multiset() =~= a@.take(i + 1).to_multiset().add(
                    b@.take(j as int).to_multiset(),
                ));
                assert forall|y: int| i < y < a@.len() implies slot_le(s, #[trigger] a@[y]) by {
                    assert(slot_order()(a@[i as int], a@[y]));
                }
                assert forall|y: int| j <= y < b@.len() implies slot_le(s, #[trigger] b@[y]) by {
                    if y > j {
                        assert(slot_order()(b@[j as int], b@[y]));
                    }
                }
                lemma_sorted_push(before, s);
            }
            i += 1;
        } else {
            let s: Slot = b[j];
            out.push(s);
            proof {
                assert(b@.take(j + 1) =~= b@.take(j as int).push(s));
                assert(out@ =~= before.push(s));
                to_multiset_build(b@.take(j as int), s);
                to_multiset_build(before, s);
                assert(out@.to_multiset() =~= a@.take(i as int).to_multiset().add(
                    b@.take(j + 1).to_multiset(),
                ));
                assert forall|y: int| j < y < b@.len() implies slot_le(s, #[trigger] b@[y]) by {
                    assert(slot_order()(b@[j as int], b@[y]));
                }
                assert forall|y: int| i <= y < a@.len() implies slot_le(s, #[trigger] a@[y]) by {
                    if y > i {
                        assert(slot_order()(a@[i as int], a@[y]));
                    }
                }
                lemma_sorted_push(before, s);
            }
            j += 1;
        }
    }
    assert(a@.take(a@.len() as int) =~= a@);
    assert(b@.take(b@.len() as int) =~= b@);
    out
}

proof fn lemma_sorted_push(v: Seq<Slot>, s: Slot)
    requires
        sorted_by(v, slot_order()),
        forall|x: int| 0 <= x < v.len() ==> slot_le(#[trigger] v[x], s),
    ensures
        sorted_by(v.push(s), slot_order()),
{
    let w = v.push(s);
    assert forall|i: int, j: int| 0 <= i < j < w.len() implies #[trigger] slot_order()(
        w[i],
        w[j],
    ) by {
        assert(w[i] == v[i]);
        if j < v.len() {
            assert(w[j] == v[j]);
            assert(slot_order()(v[i], v[j]));
        } else {
            assert(slot_le(v[i], s));
        }
    }
}

fn merge_sort(v: Vec<Slot>) -> (r: Vec<Slot>)
    ensures
        sorted_by(r@, slot_order()),
        r@.to_multiset() == v@.to_multiset(),
    decreases v@.len(),
{
    if v.len() <= 1 {
        return v;
    }
    let ghost all = v@;
    let mut left: Vec<Slot> = v;
    let mid: usize = left.len() / 2;
    let right: Vec<Slot> = left.split_off(mid);
    proof {
        assert(all =~= left@ + right@);
        lemma_multiset_commutative(left@, right@);
    }
    let a: Vec<Slot> = merge_sort(left);
    let b: Vec<Slot> = merge_sort(right);
    merge(&a, &b)
}

/// The slots in order.
pub fn sort_slots(v: Vec<Slot>) -> (r: Vec<Slot>)
    ensures
        r@ == v@.sort_by(slot_order()),
        r@.len() == v@.len(),
        forall|i: int| 0 <= i < r@.len() ==> v@.contains(#[trigger] r@[i]),
{
    let ghost all = v@;
    let r: Vec<Slot> = merge_sort(v);
    proof {
        lemma_slot_order();
        all.lemma_sort_by_ensures(slot_order());
        lemma_sorted_unique(r@, all.sort_by(slot_order()), slot_order());
        lemma_sorted_is_permutation(all, r@);
    }
    r
}

/// Sorting keeps what there is.
pub proof fn lemma_sorted_is_permutation(all: Seq<Slot>, r: Seq<Slot>)
    requires
        r == all.sort_by(slot_order()),
    ensures
        r.len() == all.len(),
        sorted_by(r, slot_order()),
        r.to_multiset() == all.to_multiset(),
        forall|s: Slot| r.contains(s) <==> all.contains(s),
        forall|i: int| 0 <= i < r.len() ==> all.contains(#[trigger] r[i]),
{
    broadcast use group_to_multiset_ensures;

    lemma_slot_order();
    all.lemma_sort_by_ensures(slot_order());
    assert(r.to_multiset() =~= all.to_multiset());
    assert(r.to_multiset().len() == all.to_multiset().len());
    assert forall|s: Slot| r.contains(s) <==> all.contains(s) by {
        assert(r.to_multiset().count(s) == all.to_multiset().count(s));
    }
    assert forall|i: int| 0 <= i < r.len() implies all.contains(#[trigger] r[i]) by {
        assert(r.contains(r[i]));
    }
}

} // verus!
