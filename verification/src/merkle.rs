//! The mathematical model of the fixed-depth Merkle tree.
//!
//! Leaves are modelled as a sequence of exactly `pow2(depth)` byte strings;
//! a position that was never written holds `empty_leaf()`. `subtree_root`
//! gives the hash of any node of the tree, and the lemmas below relate a
//! leaf-to-root fold over a sibling path to the root of the whole tree.
use vstd::prelude::*;
use vstd::arithmetic::power2::pow2;
use vstd::arithmetic::power2::lemma_pow2_adds;
use vstd::arithmetic::power2::lemma_pow2_pos;
use vstd::arithmetic::power2::lemma2_to64;
use vstd::arithmetic::div_mod::lemma_fundamental_div_mod;
use vstd::arithmetic::div_mod::lemma_fundamental_div_mod_converse;
use vstd::arithmetic::div_mod::lemma_mod_bound;
use vstd::arithmetic::div_mod::lemma_div_denominator;
use crate::hash::node_hash;

verus! {

/// The 32 zero bytes standing at every position that was never written.
pub open spec fn empty_leaf() -> Seq<u8> {
    Seq::new(32, |i: int| 0u8)
}

/// The hash of a subtree of the given height whose leaves are all empty.
pub open spec fn empty_node(level: nat) -> Seq<u8>
    decreases level,
{
    if level == 0 {
        empty_leaf()
    } else {
        node_hash(empty_node((level - 1) as nat), empty_node((level - 1) as nat))
    }
}

/// The hash of the subtree of the given height standing at position `pos`
/// of its level; it covers leaves `pos * pow2(level)` up to
/// `(pos + 1) * pow2(level)`.
pub open spec fn subtree_root(leaves: Seq<Seq<u8>>, level: nat, pos: nat) -> Seq<u8>
    decreases level,
{
    if level == 0 {
        if pos < leaves.len() {
            leaves[pos as int]
        } else {
            empty_leaf()
        }
    } else {
        node_hash(
            subtree_root(leaves, (level - 1) as nat, 2 * pos),
            subtree_root(leaves, (level - 1) as nat, 2 * pos + 1),
        )
    }
}

/// The root of the whole tree of the given depth.
pub open spec fn root_of(leaves: Seq<Seq<u8>>, depth: nat) -> Seq<u8> {
    subtree_root(leaves, depth, 0)
}

/// The leaf sequence of a freshly created tree: every position empty.
pub open spec fn all_empty(depth: nat) -> Seq<Seq<u8>> {
    Seq::new(pow2(depth), |i: int| empty_leaf())
}

/// The position beside `p` under the same parent.
pub open spec fn sibling_pos(p: nat) -> nat {
    if p % 2 == 0 {
        p + 1
    } else {
        (p - 1) as nat
    }
}

/// The hash of the sibling, at the given level, of the path from leaf
/// `index` to the root.
pub open spec fn sibling_node(leaves: Seq<Seq<u8>>, index: nat, level: nat) -> Seq<u8> {
    subtree_root(leaves, level, sibling_pos(index / pow2(level)))
}

/// `pf` lists, from the leaf level up, the sibling hashes of the path from
/// leaf `index` to the root.
pub open spec fn is_sibling_path(
    leaves: Seq<Seq<u8>>,
    index: nat,
    depth: nat,
    pf: Seq<Seq<u8>>,
) -> bool {
    &&& pf.len() == depth
    &&& forall|k: int| 0 <= k < depth ==> pf[k] == sibling_node(leaves, index, k as nat)
}

/// The node at `level` on the path from leaf `index` to the root, computed
/// by folding the leaf hash with the sibling hashes `pf` from below.
pub open spec fn fold_to(leaf: Seq<u8>, index: nat, pf: Seq<Seq<u8>>, level: nat) -> Seq<u8>
    decreases level,
{
    if level == 0 {
        leaf
    } else {
        let below = fold_to(leaf, index, pf, (level - 1) as nat);
        let p = index / pow2((level - 1) as nat);
        if p % 2 == 0 {
            node_hash(below, pf[level - 1])
        } else {
            node_hash(pf[level - 1], below)
        }
    }
}

/// The level of the lowest common ancestor, less one, of two distinct leaf
/// indices: the one level at which the two paths are siblings.
pub open spec fn crit_level(i: nat, j: nat) -> nat
    decreases i + j,
{
    if i / 2 == j / 2 {
        0
    } else {
        1 + crit_level(i / 2, j / 2)
    }
}

/// The byte sequences of a vector of 32-byte hashes.
pub open spec fn deep(s: Seq<[u8; 32]>) -> Seq<Seq<u8>> {
    Seq::new(s.len(), |i: int| s[i]@)
}

/// pow2 grows by a factor of two from one level to the next.
pub proof fn lemma_pow2_double(k: nat)
    ensures
        pow2(k + 1) == 2 * pow2(k),
{
    lemma_pow2_adds(k, 1);
    lemma2_to64();
}

/// Dividing by the next power of two is dividing by this one, then by two.
pub proof fn lemma_div_pow2_step(n: nat, k: nat)
    ensures
        n / pow2(k + 1) == (n / pow2(k)) / 2,
{
    lemma_pow2_pos(k);
    lemma_pow2_double(k);
    lemma_div_denominator(n as int, pow2(k) as int, 2);
}

/// A leaf index divides to position `p` at a level exactly when it lies in
/// the leaf range that the subtree at `(level, p)` covers.
pub proof fn lemma_div_range(j: nat, p: nat, k: nat)
    ensures
        (j / pow2(k) == p) <==> (p * pow2(k) <= j < (p + 1) * pow2(k)),
{
    let pk = pow2(k) as int;
    lemma_pow2_pos(k);
    lemma_fundamental_div_mod(j as int, pk);
    lemma_mod_bound(j as int, pk);
    assert((p + 1) * pk == p * pk + pk) by (nonlinear_arith);
    assert(pk * ((j as int) / pk) == ((j as int) / pk) * pk) by (nonlinear_arith);
    if p * pow2(k) <= j < (p + 1) * pow2(k) {
        lemma_fundamental_div_mod_converse(j as int, pk, p as int, j - p * pow2(k));
    }
}

/// An index below the capacity of the tree divides to position zero at the
/// root level.
pub proof fn lemma_div_small(j: nat, k: nat)
    requires
        j < pow2(k),
    ensures
        j / pow2(k) == 0,
{
    lemma_div_range(j, 0, k);
    assert(0 * pow2(k) == 0 && 1 * pow2(k) == pow2(k)) by (nonlinear_arith);
}

/// Two leaf sequences that agree on the range a subtree covers give that
/// subtree the same hash.
pub proof fn lemma_subtree_frame(l1: Seq<Seq<u8>>, l2: Seq<Seq<u8>>, level: nat, pos: nat)
    requires
        l1.len() == l2.len(),
        forall|j: int|
            pos * pow2(level) <= j < (pos + 1) * pow2(level) && 0 <= j < l1.len() ==> l1[j]
                == l2[j],
    ensures
        subtree_root(l1, level, pos) == subtree_root(l2, level, pos),
    decreases level,
{
    if level == 0 {
        lemma2_to64();
        if pos < l1.len() {
            assert(pos * pow2(0) == pos && (pos + 1) * pow2(0) == pos + 1) by (nonlinear_arith)
                requires
                    pow2(0) == 1,
            ;
            assert(l1[pos as int] == l2[pos as int]);
        }
    } else {
        let lm = (level - 1) as nat;
        let h = pow2(lm) as int;
        lemma_pow2_pos(lm);
        lemma_pow2_double(lm);
        assert((2 * pos) * h == pos * (2 * h) && (2 * pos + 2) * h == (pos + 1) * (2 * h) && (2
            * pos + 1) * h == (2 * pos) * h + h && (2 * pos + 2) * h == (2 * pos + 1) * h + h)
            by (nonlinear_arith);
        lemma_subtree_frame(l1, l2, lm, 2 * pos);
        lemma_subtree_frame(l1, l2, lm, 2 * pos + 1);
    }
}

/// A subtree whose covered range holds only empty leaves hashes to the
/// canonical empty node of its level.
pub proof fn lemma_subtree_empty(leaves: Seq<Seq<u8>>, level: nat, pos: nat)
    requires
        forall|j: int|
            pos * pow2(level) <= j < (pos + 1) * pow2(level) && 0 <= j < leaves.len()
                ==> leaves[j] == empty_leaf(),
    ensures
        subtree_root(leaves, level, pos) == empty_node(level),
    decreases level,
{
    if level == 0 {
        lemma2_to64();
        if pos < leaves.len() {
            assert(pos * pow2(0) == pos && (pos + 1) * pow2(0) == pos + 1) by (nonlinear_arith)
                requires
                    pow2(0) == 1,
            ;
            assert(leaves[pos as int] == empty_leaf());
        }
    } else {
        let lm = (level - 1) as nat;
        let h = pow2(lm) as int;
        lemma_pow2_pos(lm);
        lemma_pow2_double(lm);
        assert((2 * pos) * h == pos * (2 * h) && (2 * pos + 2) * h == (pos + 1) * (2 * h) && (2
            * pos + 1) * h == (2 * pos) * h + h && (2 * pos + 2) * h == (2 * pos + 1) * h + h)
            by (nonlinear_arith);
        lemma_subtree_empty(leaves, lm, 2 * pos);
        lemma_subtree_empty(leaves, lm, 2 * pos + 1);
    }
}

/// The root of a tree with no leaves written is the empty node of its depth.
pub proof fn lemma_empty_root(depth: nat)
    ensures
        root_of(all_empty(depth), depth) == empty_node(depth),
{
    lemma_subtree_empty(all_empty(depth), depth, 0);
}

/// Folding the leaf at `index` with its true sibling path reproduces, level
/// by level, the node hashes on the path from that leaf to the root.
pub proof fn lemma_fold_to_is_subtree(
    leaves: Seq<Seq<u8>>,
    index: nat,
    depth: nat,
    pf: Seq<Seq<u8>>,
    k: nat,
)
    requires
        leaves.len() == pow2(depth),
        index < pow2(depth),
        k <= depth,
        is_sibling_path(leaves, index, depth, pf),
    ensures
        fold_to(leaves[index as int], index, pf, k) == subtree_root(leaves, k, index / pow2(k)),
    decreases k,
{
    if k == 0 {
        lemma2_to64();
        assert(index / pow2(0) == index);
    } else {
        let km = (k - 1) as nat;
        lemma_fold_to_is_subtree(leaves, index, depth, pf, km);
        let p = index / pow2(km);
        let q = index / pow2(k);
        lemma_div_pow2_step(index, km);
        assert(q == p / 2);
        lemma_fundamental_div_mod(p as int, 2);
        lemma_mod_bound(p as int, 2);
        assert(p as int == 2 * (p as int / 2) + p as int % 2);
        assert(p as int / 2 == q as int);
        assert(p as int % 2 == p % 2);
        if p % 2 == 0 {
            assert(2 * q == p);
            assert(pf[k - 1] == sibling_node(leaves, index, km));
            assert(sibling_pos(p) == p + 1);
        } else {
            assert(p % 2 == 1);
            assert(2 * q + 1 == p) by (nonlinear_arith)
                requires
                    q == p / 2,
                    p % 2 == 1,
            ;
            assert(pf[k - 1] == sibling_node(leaves, index, km));
            assert(sibling_pos(p) == p - 1);
        }
    }
}

/// Folding a leaf with the true sibling path of `index` yields the root of
/// the tree with that leaf written at `index`.
pub proof fn lemma_fold_root(leaves: Seq<Seq<u8>>, index: nat, depth: nat, pf: Seq<Seq<u8>>)
    requires
        leaves.len() == pow2(depth),
        index < pow2(depth),
        is_sibling_path(leaves, index, depth, pf),
    ensures
        fold_to(leaves[index as int], index, pf, depth) == root_of(leaves, depth),
{
    lemma_fold_to_is_subtree(leaves, index, depth, pf, depth);
    lemma_div_small(index, depth);
}

/// Updating a leaf leaves every subtree that is a sibling of that leaf's
/// path unchanged.
pub proof fn lemma_sibling_frame_at(leaves: Seq<Seq<u8>>, w: nat, v: Seq<u8>, i: nat, k: nat)
    requires
        w < leaves.len(),
        w / pow2(k) != sibling_pos(i / pow2(k)),
    ensures
        sibling_node(leaves.update(w as int, v), i, k) == sibling_node(leaves, i, k),
{
    let s = sibling_pos(i / pow2(k));
    let l2 = leaves.update(w as int, v);
    assert forall|t: int|
        s * pow2(k) <= t < (s + 1) * pow2(k) && 0 <= t < leaves.len() implies leaves[t]
        == l2[t] by {
        lemma_div_range(t as nat, s, k);
    };
    lemma_subtree_frame(leaves, l2, k, s);
}

/// A position is never its own sibling.
pub proof fn lemma_sibling_pos_ne(p: nat)
    ensures
        sibling_pos(p) != p,
        sibling_pos(p) / 2 == p / 2,
{
    lemma_fundamental_div_mod(p as int, 2);
    lemma_mod_bound(p as int, 2);
    if p % 2 == 0 {
        lemma_fundamental_div_mod_converse(p as int + 1, 2, p as int / 2, 1);
    } else {
        lemma_fundamental_div_mod_converse(p as int - 1, 2, p as int / 2, 0);
    }
}

/// The sibling path of a leaf is untouched by writing that very leaf.
pub proof fn lemma_sibling_path_update_same(
    leaves: Seq<Seq<u8>>,
    index: nat,
    depth: nat,
    pf: Seq<Seq<u8>>,
    v: Seq<u8>,
)
    requires
        leaves.len() == pow2(depth),
        index < pow2(depth),
        is_sibling_path(leaves, index, depth, pf),
    ensures
        is_sibling_path(leaves.update(index as int, v), index, depth, pf),
{
    let l2 = leaves.update(index as int, v);
    assert forall|k: int| 0 <= k < depth implies pf[k] == sibling_node(l2, index, k as nat) by {
        lemma_sibling_pos_ne(index / pow2(k as nat));
        lemma_sibling_frame_at(leaves, index, v, index, k as nat);
    };
}

/// Equal quotients at one level stay equal at every level above it.
pub proof fn lemma_div_pow2_eq_up(i: nat, j: nat, k1: nat, k2: nat)
    requires
        k1 <= k2,
        i / pow2(k1) == j / pow2(k1),
    ensures
        i / pow2(k2) == j / pow2(k2),
    decreases k2 - k1,
{
    if k2 > k1 {
        lemma_div_pow2_eq_up(i, j, k1, (k2 - 1) as nat);
        lemma_div_pow2_step(i, (k2 - 1) as nat);
        lemma_div_pow2_step(j, (k2 - 1) as nat);
    }
}

/// At the critical level the paths of two distinct leaves are siblings;
/// above it they coincide.
pub proof fn lemma_crit(i: nat, j: nat, depth: nat)
    requires
        i != j,
        i < pow2(depth),
        j < pow2(depth),
    ensures
        crit_level(i, j) < depth,
        i / pow2(crit_level(i, j)) != j / pow2(crit_level(i, j)),
        i / pow2(crit_level(i, j) + 1) == j / pow2(crit_level(i, j) + 1),
        sibling_pos(i / pow2(crit_level(i, j))) == j / pow2(crit_level(i, j)),
    decreases i + j,
{
    lemma2_to64();
    assert(i / pow2(0) == i && j / pow2(0) == j);
    if depth == 0 {
        assert(i == 0 && j == 0);
    }
    let dm = (depth - 1) as nat;
    lemma_pow2_double(dm);
    lemma_fundamental_div_mod(i as int, 2);
    lemma_mod_bound(i as int, 2);
    lemma_fundamental_div_mod(j as int, 2);
    lemma_mod_bound(j as int, 2);
    if i / 2 == j / 2 {
        lemma_div_pow2_step(i, 0);
        lemma_div_pow2_step(j, 0);
        assert(sibling_pos(i) == j) by {
            if i % 2 == 0 {
                assert(j == i + 1);
            } else {
                assert(j == i - 1);
            }
        }
    } else {
        let im = i / 2;
        let jm = j / 2;
        assert(im < pow2(dm) && jm < pow2(dm));
        lemma_crit(im, jm, dm);
        let c = crit_level(im, jm);
        assert(crit_level(i, j) == 1 + c);
        lemma_pow2_double(c);
        lemma_pow2_double((c + 1) as nat);
        lemma_pow2_pos(c);
        lemma_pow2_pos((c + 1) as nat);
        lemma_div_denominator(i as int, 2, pow2(c) as int);
        lemma_div_denominator(j as int, 2, pow2(c) as int);
        lemma_div_denominator(i as int, 2, pow2(c + 1) as int);
        lemma_div_denominator(j as int, 2, pow2(c + 1) as int);
        assert(i / pow2(c + 1) == im / pow2(c));
        assert(j / pow2(c + 1) == jm / pow2(c));
        assert(i / pow2(c + 2) == im / pow2(c + 1));
        assert(j / pow2(c + 2) == jm / pow2(c + 1));
    }
}

/// Writing leaf `j` changes exactly one entry of the sibling path of a
/// distinct leaf `i`: the one at the critical level, which becomes the
/// updated subtree on `j`'s own path.
pub proof fn lemma_sibling_path_update_other(
    leaves: Seq<Seq<u8>>,
    i: nat,
    j: nat,
    depth: nat,
    pf: Seq<Seq<u8>>,
    v: Seq<u8>,
)
    requires
        leaves.len() == pow2(depth),
        i < pow2(depth),
        j < pow2(depth),
        i != j,
        is_sibling_path(leaves, i, depth, pf),
    ensures
        is_sibling_path(
            leaves.update(j as int, v),
            i,
            depth,
            pf.update(
                crit_level(i, j) as int,
                subtree_root(
                    leaves.update(j as int, v),
                    crit_level(i, j),
                    j / pow2(crit_level(i, j)),
                ),
            ),
        ),
{
    let l2 = leaves.update(j as int, v);
    let c = crit_level(i, j);
    lemma_crit(i, j, depth);
    let pf2 = pf.update(
        c as int,
        subtree_root(l2, c, j / pow2(c)),
    );
    assert forall|k: int| 0 <= k < depth implies pf2[k] == sibling_node(l2, i, k as nat) by {
        let kn = k as nat;
        if kn == c {
            assert(sibling_pos(i / pow2(c)) == j / pow2(c));
        } else {
            if kn > c {
                lemma_div_pow2_eq_up(i, j, (c + 1) as nat, kn);
                lemma_sibling_pos_ne(i / pow2(kn));
            } else {
                if j / pow2(kn) == sibling_pos(i / pow2(kn)) {
                    lemma_sibling_pos_ne(i / pow2(kn));
                    lemma_div_pow2_step(i, kn);
                    lemma_div_pow2_step(j, kn);
                    lemma_div_pow2_eq_up(i, j, (kn + 1) as nat, c);
                    assert(false);
                }
            }
            lemma_sibling_frame_at(leaves, j, v, i, kn);
        }
    };
}

/// How dividing by a power of two reacts to adding one: the quotient steps
/// up exactly when every lower bit was already set.
pub proof fn lemma_incr_div(n: nat, k: nat)
    ensures
        n % pow2(k) == pow2(k) - 1 ==> (n + 1) / pow2(k) == n / pow2(k) + 1 && (n + 1) % pow2(k)
            == 0,
        n % pow2(k) != pow2(k) - 1 ==> (n + 1) / pow2(k) == n / pow2(k) && (n + 1) % pow2(k) == n
            % pow2(k) + 1,
{
    lemma_pow2_pos(k);
    let p = pow2(k) as int;
    lemma_fundamental_div_mod(n as int, p);
    lemma_mod_bound(n as int, p);
    let q = n as int / p;
    let r = n as int % p;
    if r == p - 1 {
        assert((q + 1) * p == q * p + p) by (nonlinear_arith);
        assert(p * q == q * p) by (nonlinear_arith);
        lemma_fundamental_div_mod_converse(n as int + 1, p, q + 1, 0);
    } else {
        assert(p * q == q * p) by (nonlinear_arith);
        lemma_fundamental_div_mod_converse(n as int + 1, p, q, r + 1);
    }
}

} // verus!
