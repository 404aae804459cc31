//! The notes service around the tree: a deterministically derived
//! authority gates every mutation, appended notes are hashed into leaves,
//! and each append publishes a `NoteLog` record to the event log.
use vstd::prelude::*;
use vstd::arithmetic::power2::pow2;
use crate::hash::keccak_of;
use crate::hash::keccak256;
use crate::hash::hash_leaf;
use crate::hash::hash_eq;
use crate::merkle::all_empty;
use crate::merkle::empty_node;
use crate::tree::Tree;
use crate::tree::TreeError;
use crate::tree::MAX_DEPTH;
use crate::tree::MAX_BUFFER_SIZE;

verus! {

/// The fixed seed mixed with a tree's address when deriving its authority.
pub open spec fn authority_seed() -> Seq<u8> {
    seq![0x6eu8, 0x6fu8, 0x74u8, 0x65u8]
}

/// The identity derived for the tree at `addr`: the only identity allowed
/// to mutate that tree.
pub open spec fn authority_of(addr: Seq<u8>) -> Seq<u8> {
    keccak_of(addr + authority_seed())
}

/// The proof value a caller must present to mutate the tree at `addr`,
/// derivable only by re-running the same derivation.
pub open spec fn proof_value_of(addr: Seq<u8>) -> Seq<u8> {
    keccak_of(authority_seed() + addr)
}

/// Derives the authority of the tree at `addr`: the identity and the proof
/// value that callers of mutating operations must present.
pub fn derive_authority(addr: &[u8; 32]) -> (r: ([u8; 32], [u8; 32]))
    ensures
        r.0@ == authority_of(addr@),
        r.1@ == proof_value_of(addr@),
{
    let mut fwd: Vec<u8> = Vec::new();
    let mut i: usize = 0;
    while i < 32
        invariant
            i <= 32,
            fwd@ == addr@.take(i as int),
        decreases 32 - i,
    {
        fwd.push(addr[i]);
        proof {
            assert(fwd@ =~= addr@.take(i + 1));
        }
        i += 1;
    }
    fwd.push(0x6e);
    fwd.push(0x6f);
    fwd.push(0x74);
    fwd.push(0x65);
    proof {
        assert(fwd@ =~= addr@ + authority_seed());
    }
    let ident = keccak256(fwd.as_slice());
    let mut rev: Vec<u8> = Vec::new();
    rev.push(0x6e);
    rev.push(0x6f);
    rev.push(0x74);
    rev.push(0x65);
    let mut j: usize = 0;
    while j < 32
        invariant
            j <= 32,
            rev@ == authority_seed() + addr@.take(j as int),
        decreases 32 - j,
    {
        rev.push(addr[j]);
        proof {
            assert(rev@ =~= authority_seed() + addr@.take(j + 1));
        }
        j += 1;
    }
    proof {
        assert(rev@ =~= authority_seed() + addr@);
    }
    let proof_value = keccak256(rev.as_slice());
    (ident, proof_value)
}

/// One published event: the appended leaf hash and the note it hashes,
/// emitted once per append in call order and never read back.
pub struct NoteLog {
    pub leaf_node: [u8; 32],
    pub note: Vec<u8>,
}

impl NoteLog {
    /// Builds a record from a leaf hash and the note it stands for.
    pub fn new(leaf_node: [u8; 32], note: Vec<u8>) -> (r: NoteLog)
        ensures
            r.leaf_node == leaf_node,
            r.note == note,
    {
        NoteLog { leaf_node, note }
    }
}

/// Everything one notes log owns: the tree's address, the authority
/// derived from it, the tree itself, and the emitted event records.
pub struct NoteAccounts {
    pub tree_address: [u8; 32],
    /// The derived identity; only callers presenting its proof value may
    /// mutate the tree.
    pub tree_authority: [u8; 32],
    pub merkle_tree: Tree,
    /// The event log, in the order the appends happened.
    pub log_wrapper: Vec<NoteLog>,
}

impl NoteAccounts {
    /// The tree is well-formed and the stored authority really is the one
    /// derived from the tree's address.
    pub open spec fn wf(self) -> bool {
        &&& self.merkle_tree.wf()
        &&& self.tree_authority@ == authority_of(self.tree_address@)
    }
}

/// Creates a notes log: an empty tree of the requested shape at the given
/// address, its derived authority, and an empty event log. Unsupported
/// bounds are refused as `InvalidConfig` before any state is created.
pub fn create_note_tree(tree_address: [u8; 32], max_depth: u32, max_buffer_size: u32) -> (r:
    Result<NoteAccounts, TreeError>)
    ensures
        match r {
            Ok(a) => {
                &&& 1 <= max_depth <= MAX_DEPTH && 1 <= max_buffer_size <= MAX_BUFFER_SIZE
                &&& a.wf()
                &&& a.merkle_tree.consistent()
                &&& a.tree_address == tree_address
                &&& a.tree_authority@ == authority_of(tree_address@)
                &&& a.merkle_tree.depth == max_depth as usize
                &&& a.merkle_tree.buffer_size == max_buffer_size as usize
                &&& a.merkle_tree.sequence_number == 0
                &&& a.merkle_tree.next_index == 0
                &&& a.merkle_tree.leaves@ == all_empty(max_depth as nat)
                &&& a.merkle_tree.root@ == empty_node(max_depth as nat)
                &&& a.log_wrapper@.len() == 0
            },
            Err(e) => {
                &&& e == TreeError::InvalidConfig
                &&& !(1 <= max_depth <= MAX_DEPTH && 1 <= max_buffer_size <= MAX_BUFFER_SIZE)
            },
        },
{
    if max_depth < 1 || max_depth > MAX_DEPTH as u32 || max_buffer_size < 1 || max_buffer_size
        > MAX_BUFFER_SIZE as u32 {
        return Err(TreeError::InvalidConfig);
    }
    let tree = match Tree::initialize(max_depth as usize, max_buffer_size as usize) {
        Ok(t) => t,
        Err(e) => {
            return Err(e);
        },
    };
    let (ident, _proof_value) = derive_authority(&tree_address);
    Ok(
        NoteAccounts {
            tree_address,
            tree_authority: ident,
            merkle_tree: tree,
            log_wrapper: Vec::new(),
        },
    )
}

impl NoteAccounts {
    /// Authorizes a caller: hands back the derived identity when the
    /// presented proof value is the one derived for this tree's address,
    /// and refuses any other caller as `Unauthorized`.
    pub fn authorize(&self, auth_proof: &[u8; 32]) -> (r: Result<[u8; 32], TreeError>)
        ensures
            match r {
                Ok(ident) => {
                    &&& auth_proof@ == proof_value_of(self.tree_address@)
                    &&& ident@ == authority_of(self.tree_address@)
                },
                Err(e) => {
                    &&& e == TreeError::Unauthorized
                    &&& auth_proof@ != proof_value_of(self.tree_address@)
                },
            },
    {
        let (ident, expected) = derive_authority(&self.tree_address);
        if hash_eq(auth_proof, &expected) {
            Ok(ident)
        } else {
            Err(TreeError::Unauthorized)
        }
    }

    /// Appends a note for the derived authority: the note is hashed into a
    /// leaf, the leaf appended to the tree, and the `NoteLog` record
    /// published, all in one step. A caller not presenting the derived
    /// proof value is refused as `Unauthorized` and nothing changes; a
    /// full tree refuses with `TreeFull` and nothing changes, the event
    /// log too.
    pub fn append_note(&mut self, note: Vec<u8>, auth_proof: &[u8; 32]) -> (r: Result<
        ([u8; 32], u64),
        TreeError,
    >)
        requires
            old(self).wf(),
            old(self).merkle_tree.sequence_number < u64::MAX,
        ensures
            final(self).wf(),
            final(self).tree_address == old(self).tree_address,
            final(self).tree_authority == old(self).tree_authority,
            final(self).merkle_tree.depth == old(self).merkle_tree.depth,
            final(self).merkle_tree.buffer_size == old(self).merkle_tree.buffer_size,
            match r {
                Ok(ri) => {
                    &&& auth_proof@ == proof_value_of(old(self).tree_address@)
                    &&& old(self).merkle_tree.next_index < pow2(old(self).merkle_tree.depth as nat)
                    &&& ri.1 == old(self).merkle_tree.next_index
                    &&& ri.0 == final(self).merkle_tree.root
                    &&& final(self).merkle_tree.next_index == old(self).merkle_tree.next_index + 1
                    &&& final(self).merkle_tree.sequence_number == old(
                        self,
                    ).merkle_tree.sequence_number + 1
                    &&& final(self).merkle_tree.leaves@ == old(self).merkle_tree.leaves@.update(
                        ri.1 as int,
                        keccak_of(note@),
                    )
                    &&& (old(self).merkle_tree.consistent()
                        ==> final(self).merkle_tree.consistent())
                    &&& final(self).log_wrapper@.len() == old(self).log_wrapper@.len() + 1
                    &&& forall|t: int|
                        0 <= t < old(self).log_wrapper@.len() ==> final(self).log_wrapper@[t]
                            == old(self).log_wrapper@[t]
                    &&& final(self).log_wrapper@.last().leaf_node@ == keccak_of(note@)
                    &&& final(self).log_wrapper@.last().note@ == note@
                },
                Err(e) => {
                    &&& *final(self) == *old(self)
                    &&& (e == TreeError::Unauthorized <==> auth_proof@ != proof_value_of(
                        old(self).tree_address@,
                    ))
                    &&& (e == TreeError::TreeFull <==> (auth_proof@ == proof_value_of(
                        old(self).tree_address@,
                    ) && old(self).merkle_tree.next_index == pow2(
                        old(self).merkle_tree.depth as nat,
                    )))
                    &&& (e == TreeError::Unauthorized || e == TreeError::TreeFull)
                },
            },
    {
        match self.authorize(auth_proof) {
            Ok(_) => (),
            Err(e) => {
                return Err(e);
            },
        }
        let leaf = hash_leaf(&note);
        let result = self.merkle_tree.append(&leaf);
        match result {
            Ok((new_root, idx)) => {
                let record = NoteLog::new(leaf, note);
                self.log_wrapper.push(record);
                Ok((new_root, idx))
            },
            Err(e) => Err(e),
        }
    }
}

} // verus!
