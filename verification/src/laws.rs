//! Library-wide laws, stated and proved over the tree's leaf model.
use vstd::prelude::*;
use vstd::arithmetic::power2::pow2;
use vstd::seq_lib::lemma_multiset_commutative;
use crate::merkle::empty_leaf;
use crate::merkle::root_of;
use crate::merkle::all_empty;
use crate::tree::Tree;

verus! {

/// The model of a tree of the given depth holding exactly the leaves of
/// `ls`, in order, every later position empty.
pub open spec fn written(ls: Seq<Seq<u8>>, depth: nat) -> Seq<Seq<u8>> {
    Seq::new(pow2(depth), |i: int| if i < ls.len() { ls[i] } else { empty_leaf() })
}

/// A tree that has not been appended to holds no leaves.
pub proof fn lemma_written_none(depth: nat)
    ensures
        written(Seq::empty(), depth) == all_empty(depth),
{
    assert(written(Seq::<Seq<u8>>::empty(), depth) =~= all_empty(depth));
}

/// Appending one more leaf writes exactly the next position of the model:
/// with `Tree::append`'s contract this carries `written(ls, depth)` to
/// `written(ls.push(x), depth)`, one appended leaf at a time.
pub proof fn lemma_written_push(ls: Seq<Seq<u8>>, x: Seq<u8>, depth: nat)
    requires
        ls.len() < pow2(depth),
    ensures
        written(ls.push(x), depth) == written(ls, depth).update(ls.len() as int, x),
{
    assert(written(ls.push(x), depth) =~= written(ls, depth).update(ls.len() as int, x));
}

/// The model reached by appending the leaves of `ls` in order into an
/// empty tree: each append is the ghost step `Tree::append`'s contract
/// describes, an update at the next free position.
pub open spec fn appended_model(ls: Seq<Seq<u8>>, depth: nat) -> Seq<Seq<u8>>
    decreases ls.len(),
{
    if ls.len() == 0 {
        all_empty(depth)
    } else {
        appended_model(ls.drop_last(), depth).update(ls.len() - 1, ls.last())
    }
}

/// Law: appending the leaves of `ls` in order, starting from the empty
/// tree, leaves the model holding exactly `ls` — so by
/// `lemma_root_is_full_merkle_root` the root then equals the full Merkle
/// root computed independently over those leaves.
pub proof fn lemma_appends_write_in_order(ls: Seq<Seq<u8>>, depth: nat)
    requires
        ls.len() <= pow2(depth),
    ensures
        appended_model(ls, depth) == written(ls, depth),
    decreases ls.len(),
{
    if ls.len() == 0 {
        lemma_written_none(depth);
    } else {
        lemma_appends_write_in_order(ls.drop_last(), depth);
        lemma_written_push(ls.drop_last(), ls.last(), depth);
        assert(ls.drop_last().push(ls.last()) =~= ls);
    }
}

/// Law: after appending the leaves of `ls` in order, the stored root —
/// maintained incrementally through the rightmost path — equals the
/// Merkle root computed independently, by `root_of`'s full recursion,
/// over the same leaves padded with empty positions.
pub proof fn lemma_root_is_full_merkle_root(t: Tree, ls: Seq<Seq<u8>>)
    requires
        t.wf(),
        t.consistent(),
        ls.len() <= pow2(t.depth as nat),
        t.leaves@ == written(ls, t.depth as nat),
    ensures
        t.root@ == root_of(written(ls, t.depth as nat), t.depth as nat),
{
}

/// Law: two appends racing on one tree commute. Whichever order the
/// runtime serializes them in, the two runtime-assigned indices merely
/// swap: the two final models hold the same leaves — they are equal as
/// multisets — and agree at every position but the two newly written
/// ones, so the final root reflects both leaves in either order.
pub proof fn lemma_append_pair_commutes(l: Seq<Seq<u8>>, n: int, a: Seq<u8>, b: Seq<u8>)
    requires
        0 <= n,
        n + 1 < l.len(),
    ensures
        l.update(n, a).update(n + 1, b).to_multiset() == l.update(n, b).update(
            n + 1,
            a,
        ).to_multiset(),
        forall|i: int|
            0 <= i < l.len() && i != n && i != n + 1 ==> #[trigger] l.update(n, a).update(
                n + 1,
                b,
            )[i] == l.update(n, b).update(n + 1, a)[i],
        l.update(n, a).update(n + 1, b)[n] == a,
        l.update(n, a).update(n + 1, b)[n + 1] == b,
        l.update(n, b).update(n + 1, a)[n] == b,
        l.update(n, b).update(n + 1, a)[n + 1] == a,
{
    broadcast use vstd::seq_lib::group_to_multiset_ensures;
    broadcast use vstd::multiset::group_multiset_axioms;

    let pre = l.subrange(0, n);
    let post = l.subrange(n + 2, l.len() as int);
    let m1 = l.update(n, a).update(n + 1, b);
    let m2 = l.update(n, b).update(n + 1, a);
    let ab = seq![a, b];
    let ba = seq![b, a];
    assert(m1 =~= pre + ab + post);
    assert(m2 =~= pre + ba + post);
    assert(ab =~= Seq::<Seq<u8>>::empty().push(a).push(b));
    assert(ba =~= Seq::<Seq<u8>>::empty().push(b).push(a));
    assert(ab.to_multiset() =~= ba.to_multiset());
    lemma_multiset_commutative(pre, ab);
    lemma_multiset_commutative(pre, ba);
    lemma_multiset_commutative(pre + ab, post);
    lemma_multiset_commutative(pre + ba, post);
    assert(m1.to_multiset() =~= m2.to_multiset());
}

} // verus!
