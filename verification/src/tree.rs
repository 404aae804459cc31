//! The concurrent Merkle tree: a fixed-depth tree kept as a root hash, the
//! rightmost partial path for appends, and a bounded change log of recent
//! mutations that lets a replace carry a proof stale by up to the log's
//! capacity.
use vstd::prelude::*;
use vstd::arithmetic::power2::pow2;
use vstd::arithmetic::power2::lemma_pow2_pos;
use vstd::arithmetic::power2::lemma_pow2_strictly_increases;
use vstd::arithmetic::power2::lemma2_to64;
use crate::hash::hash_nodes;
use crate::hash::hash_eq;
use crate::merkle::empty_leaf;
use crate::merkle::empty_node;
use crate::merkle::subtree_root;
use crate::merkle::root_of;
use crate::merkle::all_empty;
use crate::merkle::sibling_pos;
use crate::merkle::sibling_node;
use crate::merkle::is_sibling_path;
use crate::merkle::fold_to;
use crate::merkle::deep;
use crate::merkle::lemma_pow2_double;
use crate::merkle::lemma_div_pow2_step;
use crate::merkle::lemma_div_range;
use crate::merkle::lemma_div_small;
use crate::merkle::lemma_subtree_frame;
use crate::merkle::lemma_subtree_empty;
use crate::merkle::lemma_empty_root;
use crate::merkle::lemma_fold_to_is_subtree;
use crate::merkle::lemma_fold_root;
use crate::merkle::lemma_crit;
use crate::merkle::lemma_sibling_path_update_other;
use crate::merkle::crit_level;
use crate::merkle::lemma_sibling_path_update_same;
use crate::merkle::lemma_incr_div;

verus! {

/// The deepest tree this implementation supports: proof length and the
/// rightmost path grow linearly with the depth.
pub const MAX_DEPTH: usize = 30;

/// The largest change-log capacity this implementation supports.
pub const MAX_BUFFER_SIZE: usize = 1024;

/// Why a mutation was refused.
#[derive(Clone, Copy, Debug, PartialEq, Eq, Structural)]
pub enum TreeError {
    /// The requested depth or buffer size is outside the supported bounds.
    InvalidConfig,
    /// Every one of the `pow2(depth)` leaf positions is occupied.
    TreeFull,
    /// The caller does not hold the derived authority of this tree.
    Unauthorized,
    /// The presented proof matched a logged state, but the leaf it speaks
    /// of was modified again afterwards.
    ProofMismatch,
    /// The presented proof matches neither the current root nor any state
    /// still resident in the change log: it is too stale to replay.
    ConcurrentModificationConflict,
}

/// One logged mutation: the root it produced, the node hashes along the
/// mutated leaf's path (leaf level first), the leaf position and the
/// mutation's sequence number.
pub struct ChangeLogEntry {
    pub root: [u8; 32],
    pub path: Vec<[u8; 32]>,
    pub index: u64,
    pub sequence_number: u64,
    /// The model of the whole leaf set right after this mutation.
    pub leaves_at: Ghost<Seq<Seq<u8>>>,
}

impl ChangeLogEntry {
    /// Structural shape of an entry of a tree of the given depth.
    pub open spec fn wf(self, depth: nat) -> bool {
        &&& self.path@.len() == depth
        &&& self.index < pow2(depth)
        &&& self.leaves_at@.len() == pow2(depth)
    }

    /// The recorded hashes really are the root and path hashes of the
    /// entry's leaf model.
    pub open spec fn consistent(self, depth: nat) -> bool {
        &&& self.root@ == root_of(self.leaves_at@, depth)
        &&& forall|k: int|
            0 <= k < depth ==> self.path@[k]@ == subtree_root(
                self.leaves_at@,
                k as nat,
                self.index as nat / pow2(k as nat),
            )
    }
}

/// The concurrent Merkle tree. `leaves` is the ghost model: the full leaf
/// set the stored root summarizes, `empty_leaf()` at every unwritten
/// position.
pub struct Tree {
    pub depth: usize,
    pub buffer_size: usize,
    pub root: [u8; 32],
    pub sequence_number: u64,
    pub next_index: u64,
    /// For each level whose bit of `next_index` is set, the hash of the
    /// completed left-sibling subtree on the rightmost path.
    pub filled: Vec<[u8; 32]>,
    /// The canonical empty-subtree hash of every level up to the depth.
    pub empties: Vec<[u8; 32]>,
    /// The change log, oldest mutation first.
    pub entries: Vec<ChangeLogEntry>,
    pub leaves: Ghost<Seq<Seq<u8>>>,
}

impl Tree {
    /// Structural well-formedness: sizes, bounds and sequence numbering.
    pub open spec fn wf(self) -> bool {
        &&& 1 <= self.depth <= MAX_DEPTH
        &&& 1 <= self.buffer_size <= MAX_BUFFER_SIZE
        &&& self.filled@.len() == self.depth
        &&& self.empties@.len() == self.depth + 1
        &&& self.leaves@.len() == pow2(self.depth as nat)
        &&& self.next_index <= pow2(self.depth as nat)
        &&& self.entries@.len() <= self.buffer_size
        &&& self.entries@.len() <= self.sequence_number
        &&& forall|t: int| 0 <= t < self.entries@.len() ==> self.entries@[t].wf(self.depth as nat)
        &&& forall|t: int|
            0 <= t < self.entries@.len() ==> self.entries@[t].sequence_number
                == self.sequence_number - (self.entries@.len() - 1 - t)
    }

    /// The stored hashes agree with the ghost leaf model: the root is the
    /// Merkle root of `leaves`, the rightmost path and the empty-node table
    /// are what the model says, every unwritten position is empty, and each
    /// change-log entry records a true snapshot, consecutive snapshots
    /// differing exactly by the logged mutation.
    pub open spec fn consistent(self) -> bool {
        &&& self.root@ == root_of(self.leaves@, self.depth as nat)
        &&& forall|k: int| 0 <= k <= self.depth ==> self.empties@[k]@ == empty_node(k as nat)
        &&& forall|k: int|
            0 <= k < self.depth && (self.next_index as nat / pow2(k as nat)) % 2 == 1
                ==> self.filled@[k]@ == subtree_root(
                self.leaves@,
                k as nat,
                (self.next_index as nat / pow2(k as nat) - 1) as nat,
            )
        &&& forall|j: int|
            self.next_index <= j < self.leaves@.len() ==> self.leaves@[j] == empty_leaf()
        &&& forall|t: int|
            0 <= t < self.entries@.len() ==> self.entries@[t].consistent(self.depth as nat)
        &&& forall|t: int|
            0 < t < self.entries@.len() ==> #[trigger] self.entries@[t].leaves_at@
                == self.entries@[t - 1].leaves_at@.update(
                self.entries@[t].index as int,
                self.entries@[t].path@[0]@,
            )
        &&& self.entries@.len() > 0 ==> self.entries@[self.entries@.len() - 1].leaves_at@
            == self.leaves@
    }

    /// The leaf model of the resident state numbered `t`: a change-log
    /// position, or the current state at `t == entries.len()`.
    pub open spec fn state_at(self, t: int) -> Seq<Seq<u8>> {
        if t == self.entries@.len() {
            self.leaves@
        } else {
            self.entries@[t].leaves_at@
        }
    }

    /// The root recorded for the resident state numbered `t`.
    pub open spec fn root_at(self, t: int) -> Seq<u8> {
        if t == self.entries@.len() {
            self.root@
        } else {
            self.entries@[t].root@
        }
    }

    /// The newest resident state numbered at most `t` whose root is `cand`,
    /// or -1 if there is none.
    pub open spec fn newest_match_from(self, cand: Seq<u8>, t: int) -> int
        decreases t + 1,
    {
        if t < 0 {
            -1
        } else if self.root_at(t) == cand {
            t
        } else {
            self.newest_match_from(cand, t - 1)
        }
    }

    /// The newest resident state whose root is `cand`, or -1 if none.
    pub open spec fn newest_match(self, cand: Seq<u8>) -> int {
        self.newest_match_from(cand, self.entries@.len() as int)
    }
}

/// Does some logged entry at position `from` or later touch leaf `index`?
pub open spec fn touched_after(entries: Seq<ChangeLogEntry>, index: nat, from: int) -> bool {
    exists|t: int| from <= t < entries.len() && entries[t].index == index
}

/// The sibling path `pf` of leaf `index` replayed forward through the
/// logged mutations from position `from` on: each one overwrites the
/// sibling hash at its critical level.
pub open spec fn forward_path(
    entries: Seq<ChangeLogEntry>,
    index: nat,
    pf: Seq<Seq<u8>>,
    from: int,
) -> Seq<Seq<u8>>
    decreases entries.len() - from,
{
    if from < 0 || from >= entries.len() {
        pf
    } else {
        let e = entries[from];
        let c = crit_level(index, e.index as nat);
        forward_path(entries, index, pf.update(c as int, e.path@[c as int]@), from + 1)
    }
}

/// Two raised to a small power, as a machine integer.
pub fn pow2_u64(k: usize) -> (r: u64)
    requires
        k <= MAX_DEPTH,
    ensures
        r == pow2(k as nat),
{
    let mut r: u64 = 1;
    let mut i: usize = 0;
    proof {
        lemma2_to64();
    }
    while i < k
        invariant
            i <= k,
            k <= MAX_DEPTH,
            r == pow2(i as nat),
        decreases k - i,
    {
        proof {
            lemma_pow2_double(i as nat);
            lemma2_to64();
            if i + 1 < MAX_DEPTH {
                lemma_pow2_strictly_increases((i + 1) as nat, MAX_DEPTH as nat);
            }
        }
        r = r * 2;
        i = i + 1;
    }
    r
}

/// Folds a leaf hash up a sibling path: returns the node hashes at levels
/// `0 .. depth` of the leaf's path (leaf level first) and the resulting
/// root.
fn compute_path(leaf: &[u8; 32], index: u64, pf: &Vec<[u8; 32]>, depth: usize) -> (r: (
    Vec<[u8; 32]>,
    [u8; 32],
))
    requires
        pf@.len() == depth,
        depth <= MAX_DEPTH,
        index < pow2(depth as nat),
    ensures
        r.0@.len() == depth,
        forall|k: int|
            0 <= k < depth ==> r.0@[k]@ == fold_to(leaf@, index as nat, deep(pf@), k as nat),
        r.1@ == fold_to(leaf@, index as nat, deep(pf@), depth as nat),
{
    let mut nodes: Vec<[u8; 32]> = Vec::new();
    let mut node: [u8; 32] = *leaf;
    let mut cur: u64 = index;
    let mut k: usize = 0;
    proof {
        lemma2_to64();
    }
    while k < depth
        invariant
            k <= depth,
            pf@.len() == depth,
            nodes@.len() == k,
            cur == index as nat / pow2(k as nat),
            node@ == fold_to(leaf@, index as nat, deep(pf@), k as nat),
            forall|t: int|
                0 <= t < k ==> nodes@[t]@ == fold_to(leaf@, index as nat, deep(pf@), t as nat),
        decreases depth - k,
    {
        nodes.push(node);
        if cur % 2 == 0 {
            node = hash_nodes(&node, &pf[k]);
        } else {
            node = hash_nodes(&pf[k], &node);
        }
        proof {
            lemma_div_pow2_step(index as nat, k as nat);
            assert(deep(pf@)[k as int] == pf@[k as int]@);
        }
        cur = cur / 2;
        k = k + 1;
    }
    (nodes, node)
}

impl Tree {
    /// Creates an empty tree: canonical empty root, no mutations logged,
    /// sequence number zero. Depth and buffer size are fixed for the life
    /// of the tree; unsupported bounds are refused as `InvalidConfig`.
    pub fn initialize(depth: usize, buffer_size: usize) -> (r: Result<Tree, TreeError>)
        ensures
            match r {
                Ok(t) => {
                    &&& 1 <= depth <= MAX_DEPTH && 1 <= buffer_size <= MAX_BUFFER_SIZE
                    &&& t.wf() && t.consistent()
                    &&& t.depth == depth && t.buffer_size == buffer_size
                    &&& t.sequence_number == 0 && t.next_index == 0
                    &&& t.leaves@ == all_empty(depth as nat)
                    &&& t.root@ == empty_node(depth as nat)
                    &&& t.entries@.len() == 0
                },
                Err(e) => {
                    &&& e == TreeError::InvalidConfig
                    &&& !(1 <= depth <= MAX_DEPTH && 1 <= buffer_size <= MAX_BUFFER_SIZE)
                },
            },
    {
        if depth < 1 || depth > MAX_DEPTH || buffer_size < 1 || buffer_size > MAX_BUFFER_SIZE {
            return Err(TreeError::InvalidConfig);
        }
        let zero: [u8; 32] = [0u8; 32];
        proof {
            assert(zero@ =~= empty_leaf());
        }
        let mut empties: Vec<[u8; 32]> = Vec::new();
        empties.push(zero);
        let mut k: usize = 0;
        while k < depth
            invariant
                k <= depth,
                empties@.len() == k + 1,
                forall|t: int| 0 <= t <= k ==> empties@[t]@ == empty_node(t as nat),
            decreases depth - k,
        {
            let up = hash_nodes(&empties[k], &empties[k]);
            empties.push(up);
            k = k + 1;
        }
        let mut filled: Vec<[u8; 32]> = Vec::new();
        let mut i: usize = 0;
        while i < depth
            invariant
                i <= depth,
                filled@.len() == i,
            decreases depth - i,
        {
            filled.push(zero);
            i = i + 1;
        }
        let root = empties[depth];
        let t = Tree {
            depth,
            buffer_size,
            root,
            sequence_number: 0,
            next_index: 0,
            filled,
            empties,
            entries: Vec::new(),
            leaves: Ghost(all_empty(depth as nat)),
        };
        proof {
            lemma_empty_root(depth as nat);
            lemma_pow2_pos(depth as nat);
            assert forall|k2: int|
                0 <= k2 < t.depth && (t.next_index as nat / pow2(k2 as nat)) % 2
                    == 1 implies t.filled@[k2]@ == subtree_root(
                t.leaves@,
                k2 as nat,
                (t.next_index as nat / pow2(k2 as nat) - 1) as nat,
            ) by {
                lemma_pow2_pos(k2 as nat);
                lemma_div_small(0, k2 as nat);
            };
        }
        Ok(t)
    }
}

impl Tree {
    /// Appends a leaf hash at the next free index. The new leaf takes
    /// position `next_index`; the root, the rightmost path and the change
    /// log are updated in one step, or — when every position is occupied —
    /// nothing changes and the call fails with `TreeFull`.
    #[verifier::loop_isolation(false)]
    #[verifier::rlimit(60)]
    pub fn append(&mut self, leaf: &[u8; 32]) -> (r: Result<([u8; 32], u64), TreeError>)
        requires
            old(self).wf(),
            old(self).sequence_number < u64::MAX,
        ensures
            final(self).wf(),
            final(self).depth == old(self).depth,
            final(self).buffer_size == old(self).buffer_size,
            match r {
                Ok(ri) => {
                    &&& old(self).next_index < pow2(old(self).depth as nat)
                    &&& ri.1 == old(self).next_index
                    &&& ri.0 == final(self).root
                    &&& final(self).next_index == old(self).next_index + 1
                    &&& final(self).sequence_number == old(self).sequence_number + 1
                    &&& final(self).leaves@ == old(self).leaves@.update(
                        old(self).next_index as int,
                        leaf@,
                    )
                    &&& final(self).entries@.len() == if old(self).entries@.len() < old(
                        self,
                    ).buffer_size {
                        old(self).entries@.len() + 1 as int
                    } else {
                        old(self).buffer_size as int
                    }
                    &&& (old(self).consistent() ==> final(self).consistent())
                },
                Err(e) => {
                    &&& e == TreeError::TreeFull
                    &&& old(self).next_index == pow2(old(self).depth as nat)
                    &&& *final(self) == *old(self)
                },
            },
    {
        let depth = self.depth;
        let cap = pow2_u64(depth);
        if self.next_index >= cap {
            return Err(TreeError::TreeFull);
        }
        let n = self.next_index;
        let ghost d = depth as nat;
        let ghost l = self.leaves@;

        // the sibling path of position n: completed subtrees on the left,
        // empty subtrees on the right
        let mut pf: Vec<[u8; 32]> = Vec::new();
        let mut cur: u64 = n;
        let mut k: usize = 0;
        proof {
            lemma2_to64();
        }
        while k < depth
            invariant
                k <= depth,
                pf@.len() == k,
                cur == n as nat / pow2(k as nat),
                forall|t: int|
                    0 <= t < k ==> pf@[t] == (if (n as nat / pow2(t as nat)) % 2 == 1 {
                        self.filled@[t]
                    } else {
                        self.empties@[t]
                    }),
            decreases depth - k,
        {
            if cur % 2 == 1 {
                pf.push(self.filled[k]);
            } else {
                pf.push(self.empties[k]);
            }
            proof {
                lemma_div_pow2_step(n as nat, k as nat);
            }
            cur = cur / 2;
            k = k + 1;
        }
        proof {
            if old(self).consistent() {
                assert forall|k2: int| 0 <= k2 < d implies deep(pf@)[k2] == sibling_node(
                    l,
                    n as nat,
                    k2 as nat,
                ) by {
                    let kn = k2 as nat;
                    let q = n as nat / pow2(kn);
                    lemma_div_range(n as nat, q, kn);
                    if q % 2 == 1 {
                        assert(sibling_pos(q) == q - 1);
                    } else {
                        assert(sibling_pos(q) == q + 1);
                        assert forall|j: int|
                            (q + 1) * pow2(kn) <= j < (q + 2) * pow2(kn) && 0 <= j
                                < l.len() implies l[j] == empty_leaf() by {
                            assert(j > n);
                        };
                        lemma_subtree_empty(l, kn, q + 1);
                    }
                };
                assert(is_sibling_path(l, n as nat, d, deep(pf@)));
            }
        }
        let (nodes, new_root) = compute_path(leaf, n, &pf, depth);
        let ghost l2 = l.update(n as int, leaf@);
        proof {
            if old(self).consistent() {
                lemma_sibling_path_update_same(l, n as nat, d, deep(pf@), leaf@);
                assert(l2[n as int] == leaf@);
                assert forall|k2: int| 0 <= k2 < d implies nodes@[k2]@ == subtree_root(
                    l2,
                    k2 as nat,
                    n as nat / pow2(k2 as nat),
                ) by {
                    lemma_fold_to_is_subtree(l2, n as nat, d, deep(pf@), k2 as nat);
                };
                lemma_fold_to_is_subtree(l2, n as nat, d, deep(pf@), d);
                lemma_div_small(n as nat, d);
                assert(new_root@ == root_of(l2, d));
            }
        }

        // completed subtrees recorded for the next append position
        let mut k2: usize = 0;
        let mut cur2: u64 = n;
        while k2 < depth
            invariant
                k2 <= depth,
                cur2 == n as nat / pow2(k2 as nat),
                self.filled@.len() == depth,
                forall|t: int|
                    0 <= t < k2 ==> self.filled@[t] == (if (n as nat / pow2(t as nat)) % 2 == 0 {
                        nodes@[t]
                    } else {
                        old(self).filled@[t]
                    }),
                forall|t: int| k2 <= t < depth ==> self.filled@[t] == old(self).filled@[t],
                self.depth == old(self).depth,
                self.buffer_size == old(self).buffer_size,
                self.root == old(self).root,
                self.sequence_number == old(self).sequence_number,
                self.next_index == old(self).next_index,
                self.empties == old(self).empties,
                self.entries == old(self).entries,
                self.leaves == old(self).leaves,
            decreases depth - k2,
        {
            if cur2 % 2 == 0 {
                let nd = nodes[k2];
                self.filled[k2] = nd;
            }
            proof {
                lemma_div_pow2_step(n as nat, k2 as nat);
            }
            cur2 = cur2 / 2;
            k2 = k2 + 1;
        }

        // log the mutation and install the new root
        let seq2 = self.sequence_number + 1;
        let entry = ChangeLogEntry {
            root: new_root,
            path: nodes,
            index: n,
            sequence_number: seq2,
            leaves_at: Ghost(l2),
        };
        self.entries.push(entry);
        if self.entries.len() > self.buffer_size {
            self.entries.remove(0);
        }
        self.root = new_root;
        self.sequence_number = seq2;
        self.next_index = n + 1;
        self.leaves = Ghost(l2);

        proof {
            assert(self.wf());
            if old(self).consistent() {
                assert forall|k3: int|
                    0 <= k3 < d && (self.next_index as nat / pow2(k3 as nat)) % 2
                        == 1 implies self.filled@[k3]@ == subtree_root(
                    l2,
                    k3 as nat,
                    (self.next_index as nat / pow2(k3 as nat) - 1) as nat,
                ) by {
                    let kn = k3 as nat;
                    let q = n as nat / pow2(kn);
                    lemma_incr_div(n as nat, kn);
                    lemma_pow2_pos(kn);
                    if n as nat % pow2(kn) == pow2(kn) - 1 {
                        assert((n + 1) as nat / pow2(kn) == q + 1);
                        assert(q % 2 == 0);
                    } else {
                        assert((n + 1) as nat / pow2(kn) == q);
                        assert(q % 2 == 1);
                        assert(self.filled@[k3] == old(self).filled@[k3]);
                        assert(old(self).filled@[k3]@ == subtree_root(l, kn, (q - 1) as nat));
                        assert forall|j: int|
                            (q - 1) * pow2(kn) <= j < q * pow2(kn) && 0 <= j < l.len() implies l[j]
                            == l2[j] by {
                            lemma_div_range(j as nat, (q - 1) as nat, kn);
                        };
                        lemma_subtree_frame(l, l2, kn, (q - 1) as nat);
                    }
                };
                assert(self.consistent());
            }
        }
        Ok((new_root, n))
    }
}

/// The level at which the paths of two distinct leaves are siblings,
/// found by halving both indices until they meet.
fn crit_exec(i: u64, j: u64, depth: usize) -> (c: usize)
    requires
        depth <= MAX_DEPTH,
        i != j,
        i < pow2(depth as nat),
        j < pow2(depth as nat),
    ensures
        c == crit_level(i as nat, j as nat),
        c < depth,
{
    proof {
        lemma_crit(i as nat, j as nat, depth as nat);
    }
    let mut a: u64 = i / 2;
    let mut b: u64 = j / 2;
    let mut c: usize = 0;
    let ghost mut ga = i as nat;
    let ghost mut gb = j as nat;
    while a != b
        invariant
            ga != gb,
            a == ga / 2,
            b == gb / 2,
            crit_level(ga, gb) + c == crit_level(i as nat, j as nat),
            crit_level(i as nat, j as nat) < depth,
        decreases a + b,
    {
        proof {
            ga = a as nat;
            gb = b as nat;
        }
        a = a / 2;
        b = b / 2;
        c = c + 1;
    }
    c
}

impl Tree {
    /// The root a presented proof resolves to: the claimed old leaf folded
    /// up the presented sibling path.
    pub open spec fn claimed_root(self, index: u64, leaf: Seq<u8>, pf: Seq<Seq<u8>>) -> Seq<u8> {
        fold_to(leaf, index as nat, pf, self.depth as nat)
    }

    /// Replaces the leaf at `index`, presenting the leaf value to replace
    /// and its sibling path. The proof may be stale: if the root it
    /// resolves to is still resident — the current root or any change-log
    /// entry — the proof is replayed forward through the newer logged
    /// mutations and the replace succeeds atomically. A proof resolving to
    /// no resident root is refused as `ConcurrentModificationConflict`; one
    /// whose own leaf was modified again after the matched state is refused
    /// as `ProofMismatch`. Only a position that has been appended to can
    /// be replaced.
    #[verifier::loop_isolation(false)]
    #[verifier::rlimit(100)]
    pub fn replace(
        &mut self,
        index: u64,
        old_leaf: &[u8; 32],
        new_leaf: &[u8; 32],
        proof_path: &Vec<[u8; 32]>,
    ) -> (r: Result<[u8; 32], TreeError>)
        requires
            old(self).wf(),
            old(self).sequence_number < u64::MAX,
            proof_path@.len() == old(self).depth,
            index < old(self).next_index,
        ensures
            final(self).wf(),
            final(self).depth == old(self).depth,
            final(self).buffer_size == old(self).buffer_size,
            final(self).next_index == old(self).next_index,
            ({
                let cand = old(self).claimed_root(index, old_leaf@, deep(proof_path@));
                let m = old(self).newest_match(cand);
                match r {
                    Ok(new_root) => {
                        &&& m >= 0
                        &&& !touched_after(old(self).entries@, index as nat, m + 1)
                        &&& final(self).sequence_number == old(self).sequence_number + 1
                        &&& final(self).leaves@ == old(self).leaves@.update(
                            index as int,
                            new_leaf@,
                        )
                        &&& new_root == final(self).root
                        &&& new_root@ == fold_to(
                            new_leaf@,
                            index as nat,
                            forward_path(old(self).entries@, index as nat, deep(proof_path@), m + 1),
                            old(self).depth as nat,
                        )
                        &&& final(self).entries@.len() == if old(self).entries@.len() < old(
                            self,
                        ).buffer_size {
                            old(self).entries@.len() + 1 as int
                        } else {
                            old(self).buffer_size as int
                        }
                        &&& ((old(self).consistent() && is_sibling_path(
                            old(self).state_at(m),
                            index as nat,
                            old(self).depth as nat,
                            deep(proof_path@),
                        ) && old_leaf@ == old(self).state_at(m)[index as int])
                            ==> final(self).consistent())
                    },
                    Err(e) => {
                        &&& *final(self) == *old(self)
                        &&& (e == TreeError::ConcurrentModificationConflict <==> m == -1)
                        &&& (e == TreeError::ProofMismatch <==> (m >= 0 && touched_after(
                            old(self).entries@,
                            index as nat,
                            m + 1,
                        )))
                        &&& (e == TreeError::ConcurrentModificationConflict || e
                            == TreeError::ProofMismatch)
                    },
                }
            }),
    {
        let depth = self.depth;
        let ghost d = depth as nat;
        let ghost l = self.leaves@;
        let len = self.entries.len();

        // the root the presented proof resolves to
        let (_nodes, cand) = compute_path(old_leaf, index, proof_path, depth);

        // newest resident state carrying that root
        let mut found = false;
        let mut m: usize = 0;
        if hash_eq(&cand, &self.root) {
            found = true;
            m = len;
        }
        let mut t: usize = len;
        while t > 0 && !found
            invariant
                t <= len,
                !found ==> self.newest_match(cand@) == self.newest_match_from(cand@, t - 1),
                found ==> self.newest_match(cand@) == m && m <= len,
            decreases t,
        {
            if hash_eq(&cand, &self.entries[t - 1].root) {
                found = true;
                m = t - 1;
            }
            t = t - 1;
        }
        if !found {
            return Err(TreeError::ConcurrentModificationConflict);
        }

        // a newer logged mutation of the same leaf outdates the proof
        let mut u: usize = m + 1;
        while u < len
            invariant
                m + 1 <= u,
                u <= len || u == m + 1,
                forall|t2: int| m + 1 <= t2 < u ==> self.entries@[t2].index != index,
            decreases len - u,
        {
            if self.entries[u].index == index {
                proof {
                    assert(touched_after(self.entries@, index as nat, m + 1 as int));
                }
                return Err(TreeError::ProofMismatch);
            }
            u = u + 1;
        }
        proof {
            assert(!touched_after(self.entries@, index as nat, m + 1 as int));
        }

        // replay the proof forward through the newer logged mutations
        let mut pf2: Vec<[u8; 32]> = Vec::new();
        let mut w: usize = 0;
        while w < depth
            invariant
                w <= depth,
                pf2@.len() == w,
                forall|t2: int| 0 <= t2 < w ==> pf2@[t2] == proof_path@[t2],
            decreases depth - w,
        {
            pf2.push(proof_path[w]);
            w = w + 1;
        }
        proof {
            assert(pf2@ =~= proof_path@);
        }
        let ghost orig_pf = deep(proof_path@);
        let ghost honest = old(self).consistent() && is_sibling_path(
            old(self).state_at(m as int),
            index as nat,
            d,
            orig_pf,
        ) && old_leaf@ == old(self).state_at(m as int)[index as int];
        let ghost mut gstate = self.state_at(m as int);
        let mut v: usize = m + 1;
        while v < len
            invariant
                m + 1 <= v,
                v <= len || v == m + 1,
                pf2@.len() == depth,
                forall|t2: int| m + 1 <= t2 < len ==> self.entries@[t2].index != index,
                forward_path(self.entries@, index as nat, deep(pf2@), v as int) == forward_path(
                    self.entries@,
                    index as nat,
                    orig_pf,
                    m + 1 as int,
                ),
                gstate == self.state_at(v - 1),
                honest ==> is_sibling_path(gstate, index as nat, d, deep(pf2@)),
                honest ==> old_leaf@ == gstate[index as int],
            decreases len - v,
        {
            let e_index = self.entries[v].index;
            let c = crit_exec(index, e_index, depth);
            let node = self.entries[v].path[c];
            let ghost prev_pf = deep(pf2@);
            pf2[c] = node;
            proof {
                assert(deep(pf2@) =~= prev_pf.update(c as int, node@));
                if honest {
                    let ev = self.entries@[v as int];
                    assert(ev.leaves_at@ == gstate.update(ev.index as int, ev.path@[0]@));
                    lemma_sibling_path_update_other(
                        gstate,
                        index as nat,
                        e_index as nat,
                        d,
                        prev_pf,
                        ev.path@[0]@,
                    );
                    assert(ev.path@[c as int]@ == subtree_root(
                        ev.leaves_at@,
                        c as nat,
                        ev.index as nat / pow2(c as nat),
                    ));
                }
                gstate = self.state_at(v as int);
            }
            v = v + 1;
        }
        proof {
            if honest {
                assert(gstate == l);
                assert(is_sibling_path(l, index as nat, d, deep(pf2@)));
            }
        }

        let (nodes, new_root) = compute_path(new_leaf, index, &pf2, depth);
        let ghost l2 = l.update(index as int, new_leaf@);
        proof {
            if honest {
                lemma_sibling_path_update_same(l, index as nat, d, deep(pf2@), new_leaf@);
                assert(l2[index as int] == new_leaf@);
                assert forall|k2: int| 0 <= k2 < d implies nodes@[k2]@ == subtree_root(
                    l2,
                    k2 as nat,
                    index as nat / pow2(k2 as nat),
                ) by {
                    lemma_fold_to_is_subtree(l2, index as nat, d, deep(pf2@), k2 as nat);
                };
                lemma_fold_to_is_subtree(l2, index as nat, d, deep(pf2@), d);
                lemma_div_small(index as nat, d);
                assert(new_root@ == root_of(l2, d));
            }
        }

        // completed left subtrees on the rightmost path that contain the
        // replaced leaf take its new path hash
        let n2 = self.next_index;
        proof {
            lemma2_to64();
        }
        let mut k3: usize = 0;
        let mut curn: u64 = n2;
        let mut curi: u64 = index;
        while k3 < depth
            invariant
                k3 <= depth,
                curn == n2 as nat / pow2(k3 as nat),
                curi == index as nat / pow2(k3 as nat),
                self.filled@.len() == depth,
                forall|t2: int|
                    0 <= t2 < k3 ==> self.filled@[t2] == (if (n2 as nat / pow2(t2 as nat)) % 2 == 1
                        && index as nat / pow2(t2 as nat) == n2 as nat / pow2(t2 as nat) - 1 {
                        nodes@[t2]
                    } else {
                        old(self).filled@[t2]
                    }),
                forall|t2: int| k3 <= t2 < depth ==> self.filled@[t2] == old(self).filled@[t2],
                self.depth == old(self).depth,
                self.buffer_size == old(self).buffer_size,
                self.root == old(self).root,
                self.sequence_number == old(self).sequence_number,
                self.next_index == old(self).next_index,
                self.empties == old(self).empties,
                self.entries == old(self).entries,
                self.leaves == old(self).leaves,
            decreases depth - k3,
        {
            if curn % 2 == 1 && curi == curn - 1 {
                let nd = nodes[k3];
                self.filled[k3] = nd;
            }
            proof {
                lemma_div_pow2_step(n2 as nat, k3 as nat);
                lemma_div_pow2_step(index as nat, k3 as nat);
            }
            curn = curn / 2;
            curi = curi / 2;
            k3 = k3 + 1;
        }

        // log the mutation and install the new root
        let seq2 = self.sequence_number + 1;
        let entry = ChangeLogEntry {
            root: new_root,
            path: nodes,
            index,
            sequence_number: seq2,
            leaves_at: Ghost(l2),
        };
        self.entries.push(entry);
        if self.entries.len() > self.buffer_size {
            self.entries.remove(0);
        }
        self.root = new_root;
        self.sequence_number = seq2;
        self.leaves = Ghost(l2);

        proof {
            assert(self.wf());
            if honest {
                assert forall|k4: int|
                    0 <= k4 < d && (self.next_index as nat / pow2(k4 as nat)) % 2
                        == 1 implies self.filled@[k4]@ == subtree_root(
                    l2,
                    k4 as nat,
                    (self.next_index as nat / pow2(k4 as nat) - 1) as nat,
                ) by {
                    let kn = k4 as nat;
                    let q = n2 as nat / pow2(kn);
                    lemma_pow2_pos(kn);
                    if index as nat / pow2(kn) == q - 1 {
                        assert(self.filled@[k4] == nodes@[k4]);
                    } else {
                        assert(self.filled@[k4] == old(self).filled@[k4]);
                        assert(old(self).filled@[k4]@ == subtree_root(l, kn, (q - 1) as nat));
                        assert forall|j2: int|
                            (q - 1) * pow2(kn) <= j2 < q * pow2(kn) && 0 <= j2
                                < l.len() implies l[j2] == l2[j2] by {
                            lemma_div_range(j2 as nat, (q - 1) as nat, kn);
                        };
                        lemma_subtree_frame(l, l2, kn, (q - 1) as nat);
                    }
                };
                assert(self.consistent());
            }
        }
        Ok(new_root)
    }
}

impl Tree {
    /// `newest_match_from` never passes over a matching position.
    proof fn lemma_newest_match_lower(self, cand: Seq<u8>, s: int, t: int)
        requires
            0 <= s <= t,
            self.root_at(s) == cand,
        ensures
            self.newest_match_from(cand, t) >= s,
        decreases t,
    {
        if t > s && self.root_at(t) != cand {
            self.lemma_newest_match_lower(cand, s, t - 1);
        }
    }

    /// Law: a proof that is the true sibling path of leaf `index` in a
    /// state still resident — a change-log entry, or the current state —
    /// resolves exactly to that state's recorded root, so a replace
    /// presenting it finds a replay anchor at least as new as that state.
    pub proof fn lemma_honest_proof_is_matched(self, s: int, index: u64, pf: Seq<Seq<u8>>)
        requires
            self.wf(),
            self.consistent(),
            0 <= s <= self.entries@.len(),
            index < pow2(self.depth as nat),
            is_sibling_path(self.state_at(s), index as nat, self.depth as nat, pf),
        ensures
            self.claimed_root(index, self.state_at(s)[index as int], pf) == self.root_at(s),
            self.newest_match(self.claimed_root(index, self.state_at(s)[index as int], pf)) >= s,
    {
        lemma_fold_root(self.state_at(s), index as nat, self.depth as nat, pf);
        self.lemma_newest_match_lower(
            self.claimed_root(index, self.state_at(s)[index as int], pf),
            s,
            self.entries@.len() as int,
        );
    }

    /// Scans the resident states — the change log and the current state —
    /// for the newest one whose root the presented proof resolves to: the
    /// replay anchor a replace would validate against. Returns that
    /// state's sequence number.
    #[verifier::loop_isolation(false)]
    pub fn find_valid_proof(&self, index: u64, leaf: &[u8; 32], proof_path: &Vec<[u8; 32]>) -> (r:
        Option<u64>)
        requires
            self.wf(),
            proof_path@.len() == self.depth,
            index < pow2(self.depth as nat),
        ensures
            ({
                let cand = self.claimed_root(index, leaf@, deep(proof_path@));
                let m = self.newest_match(cand);
                match r {
                    Some(s) => m >= 0 && s == (if m == self.entries@.len() {
                        self.sequence_number as int
                    } else {
                        self.entries@[m].sequence_number as int
                    }),
                    None => m == -1,
                }
            }),
    {
        let len = self.entries.len();
        let (_nodes, cand) = compute_path(leaf, index, proof_path, self.depth);
        if hash_eq(&cand, &self.root) {
            return Some(self.sequence_number);
        }
        let mut t: usize = len;
        while t > 0
            invariant
                t <= len,
                cand@ == self.claimed_root(index, leaf@, deep(proof_path@)),
                self.newest_match(cand@) == self.newest_match_from(cand@, t - 1),
            decreases t,
        {
            if hash_eq(&cand, &self.entries[t - 1].root) {
                return Some(self.entries[t - 1].sequence_number);
            }
            t = t - 1;
        }
        None
    }
}

} // verus!
