//! The persisted layout: a tree's state (root, sequence number, depth,
//! buffer size) and its change-log entries, stored in one fixed-size
//! binary record whose size is settled at creation time by the depth and
//! the buffer size.
use vstd::prelude::*;
use vstd::bytes::spec_u64_to_le_bytes;
use vstd::bytes::u64_to_le_bytes;
use vstd::bytes::u64_from_le_bytes;
use vstd::bytes::lemma_auto_spec_u64_to_from_le_bytes;
use vstd::slice::slice_subrange;
use vstd::slice::slice_index_get;
use crate::tree::MAX_BUFFER_SIZE;
use crate::tree::MAX_DEPTH;
use crate::tree::ChangeLogEntry;
use crate::tree::Tree;

verus! {

/// Bytes of one change-log path, node hashes concatenated leaf level
/// first.
pub open spec fn path_bytes(path: Seq<[u8; 32]>) -> Seq<u8>
    decreases path.len(),
{
    if path.len() == 0 {
        Seq::empty()
    } else {
        path[0]@ + path_bytes(path.drop_first())
    }
}

/// Bytes of one change-log slot: the entry's root, leaf index, sequence
/// number, then its node path.
pub open spec fn entry_bytes(e: ChangeLogEntry) -> Seq<u8> {
    e.root@ + spec_u64_to_le_bytes(e.index) + spec_u64_to_le_bytes(e.sequence_number)
        + path_bytes(e.path@)
}

/// Bytes of the resident change-log entries, oldest first.
pub open spec fn entries_bytes(entries: Seq<ChangeLogEntry>) -> Seq<u8>
    decreases entries.len(),
{
    if entries.len() == 0 {
        Seq::empty()
    } else {
        entry_bytes(entries[0]) + entries_bytes(entries.drop_first())
    }
}

/// A run of zero bytes: the unused change-log slots of the fixed record.
pub open spec fn zero_bytes(n: nat) -> Seq<u8> {
    Seq::new(n, |i: int| 0u8)
}

/// The number of bytes one change-log slot takes in a tree of the given
/// depth.
pub open spec fn slot_size(depth: nat) -> nat {
    48 + 32 * depth
}

/// The fixed size of the whole record: a 64-byte header and one slot per
/// change-log position, settled at creation time by depth and buffer
/// size.
pub open spec fn record_size(depth: nat, buffer_size: nat) -> nat {
    64 + buffer_size * slot_size(depth)
}

/// The header: depth, buffer size and sequence number as little-endian
/// words, the root hash, and the count of resident entries.
pub open spec fn header_bytes(t: Tree) -> Seq<u8> {
    spec_u64_to_le_bytes(t.depth as u64) + spec_u64_to_le_bytes(t.buffer_size as u64)
        + spec_u64_to_le_bytes(t.sequence_number) + t.root@ + spec_u64_to_le_bytes(
        t.entries@.len() as u64,
    )
}

/// The whole record: header, resident entries oldest first, then zeroed
/// unused slots up to the fixed size.
pub open spec fn record_bytes(t: Tree) -> Seq<u8> {
    header_bytes(t) + entries_bytes(t.entries@) + zero_bytes(
        ((t.buffer_size - t.entries@.len()) * slot_size(t.depth as nat)) as nat,
    )
}

/// Splitting the last entry off the byte run of a prefix of entries.
proof fn lemma_entries_bytes_take(entries: Seq<ChangeLogEntry>, i: int)
    requires
        0 <= i < entries.len(),
    ensures
        entries_bytes(entries.take(i + 1)) == entries_bytes(entries.take(i)) + entry_bytes(
            entries[i],
        ),
    decreases i,
{
    if i == 0 {
        assert(entries.take(1).drop_first() =~= Seq::<ChangeLogEntry>::empty());
        assert(entries_bytes(Seq::<ChangeLogEntry>::empty()) =~= Seq::<u8>::empty());
        assert(entries_bytes(entries.take(1)) =~= entry_bytes(entries[0]));
        assert(entries_bytes(entries.take(0)) =~= Seq::empty());
    } else {
        lemma_entries_bytes_take(entries.drop_first(), i - 1);
        assert(entries.take(i + 1).drop_first() =~= entries.drop_first().take(i));
        assert(entries.take(i).drop_first() =~= entries.drop_first().take(i - 1));
        assert(entries.drop_first()[i - 1] == entries[i]);
        assert(entries_bytes(entries.take(i + 1)) == entry_bytes(entries[0]) + entries_bytes(
            entries.drop_first().take(i),
        ));
        assert(entries_bytes(entries.take(i)) == entry_bytes(entries[0]) + entries_bytes(
            entries.drop_first().take(i - 1),
        ));
        assert(entries_bytes(entries.take(i + 1)) =~= entries_bytes(entries.take(i))
            + entry_bytes(entries[i]));
    }
}

/// Splitting the last node hash off the byte run of a prefix of a path.
proof fn lemma_path_bytes_take(path: Seq<[u8; 32]>, i: int)
    requires
        0 <= i < path.len(),
    ensures
        path_bytes(path.take(i + 1)) == path_bytes(path.take(i)) + path[i]@,
    decreases i,
{
    if i == 0 {
        assert(path.take(1).drop_first() =~= Seq::<[u8; 32]>::empty());
        assert(path_bytes(Seq::<[u8; 32]>::empty()) =~= Seq::<u8>::empty());
        assert(path_bytes(path.take(1)) =~= path[0]@);
        assert(path_bytes(path.take(0)) =~= Seq::empty());
    } else {
        lemma_path_bytes_take(path.drop_first(), i - 1);
        assert(path.take(i + 1).drop_first() =~= path.drop_first().take(i));
        assert(path.take(i).drop_first() =~= path.drop_first().take(i - 1));
        assert(path.drop_first()[i - 1] == path[i]);
        assert(path_bytes(path.take(i + 1)) == path.take(i + 1)[0]@ + path_bytes(
            path.drop_first().take(i),
        ));
        assert(path_bytes(path.take(i)) == path.take(i)[0]@ + path_bytes(
            path.drop_first().take(i - 1),
        ));
        assert(path_bytes(path.take(i + 1)) =~= path_bytes(path.take(i)) + path[i]@);
    }
}

/// Appends the 32 bytes of a hash.
fn push_hash(out: &mut Vec<u8>, h: &[u8; 32])
    ensures
        final(out)@ == old(out)@ + h@,
{
    let mut i: usize = 0;
    while i < 32
        invariant
            i <= 32,
            out@ == old(out)@ + h@.take(i as int),
        decreases 32 - i,
    {
        out.push(h[i]);
        proof {
            assert(out@ =~= old(out)@ + h@.take(i + 1));
        }
        i += 1;
    }
    proof {
        assert(out@ =~= old(out)@ + h@);
    }
}

/// Appends a little-endian word.
fn push_u64(out: &mut Vec<u8>, x: u64)
    ensures
        final(out)@ == old(out)@ + spec_u64_to_le_bytes(x),
{
    let bytes = u64_to_le_bytes(x);
    let mut i: usize = 0;
    while i < bytes.len()
        invariant
            i <= bytes@.len(),
            bytes@ == spec_u64_to_le_bytes(x),
            out@ == old(out)@ + bytes@.take(i as int),
        decreases bytes@.len() - i,
    {
        out.push(bytes[i]);
        proof {
            assert(out@ =~= old(out)@ + bytes@.take(i + 1));
        }
        i += 1;
    }
    proof {
        assert(out@ =~= old(out)@ + bytes@);
    }
}

impl Tree {
    /// Writes the tree's persisted state — root, sequence number, depth,
    /// buffer size and the resident change-log entries — into the
    /// fixed-size binary record of its creation-time shape.
    #[verifier::loop_isolation(false)]
    pub fn serialize(&self) -> (r: Vec<u8>)
        requires
            self.wf(),
        ensures
            r@ == record_bytes(*self),
            r@.len() == record_size(self.depth as nat, self.buffer_size as nat),
    {
        let mut out: Vec<u8> = Vec::new();
        push_u64(&mut out, self.depth as u64);
        push_u64(&mut out, self.buffer_size as u64);
        push_u64(&mut out, self.sequence_number);
        push_hash(&mut out, &self.root);
        push_u64(&mut out, self.entries.len() as u64);
        proof {
            assert(out@ =~= header_bytes(*self));
        }
        let len = self.entries.len();
        let mut t: usize = 0;
        while t < len
            invariant
                t <= len,
                out@ == header_bytes(*self) + entries_bytes(self.entries@.take(t as int)),
            decreases len - t,
        {
            let mut k: usize = 0;
            push_hash(&mut out, &self.entries[t].root);
            push_u64(&mut out, self.entries[t].index);
            push_u64(&mut out, self.entries[t].sequence_number);
            let ghost before_path = out@;
            while k < self.depth
                invariant
                    k <= self.depth,
                    out@ == before_path + path_bytes(self.entries@[t as int].path@.take(k as int)),
                decreases self.depth - k,
            {
                push_hash(&mut out, &self.entries[t].path[k]);
                proof {
                    lemma_path_bytes_take(self.entries@[t as int].path@, k as int);
                }
                k += 1;
            }
            proof {
                let e = self.entries@[t as int];
                assert(e.path@.take(self.depth as int) =~= e.path@);
                assert(path_bytes(Seq::<[u8; 32]>::empty()) =~= Seq::<u8>::empty());
                assert(e.path@.take(0) =~= Seq::<[u8; 32]>::empty());
                assert(out@ =~= header_bytes(*self) + entries_bytes(self.entries@.take(t as int))
                    + entry_bytes(e));
                lemma_entries_bytes_take(self.entries@, t as int);
            }
            t += 1;
        }
        proof {
            assert(self.entries@.take(len as int) =~= self.entries@);
        }
        // zero the unused change-log slots up to the fixed size
        let slot = 48 + 32 * self.depth;
        let free = self.buffer_size - len;
        proof {
            assert(free * slot <= 1024 * 1008) by (nonlinear_arith)
                requires
                    free <= 1024,
                    slot <= 1008,
            ;
        }
        let pad = free * slot;
        let mut p: usize = 0;
        while p < pad
            invariant
                p <= pad,
                out@ == header_bytes(*self) + entries_bytes(self.entries@) + zero_bytes(p as nat),
            decreases pad - p,
        {
            out.push(0u8);
            proof {
                assert(out@ =~= header_bytes(*self) + entries_bytes(self.entries@) + zero_bytes(
                    (p + 1) as nat,
                ));
            }
            p += 1;
        }
        proof {
            assert(zero_bytes(0) =~= Seq::<u8>::empty());
            assert(out@ =~= record_bytes(*self));
            lemma_record_len(*self);
        }
        out
    }
}

/// The record's length really is its fixed creation-time size.
proof fn lemma_record_len(t: Tree)
    requires
        t.wf(),
    ensures
        record_bytes(t).len() == record_size(t.depth as nat, t.buffer_size as nat),
{
    lemma_entries_bytes_len(t.entries@, t.depth as nat);
    assert(header_bytes(t).len() == 64) by {
        vstd::bytes::lemma_auto_spec_u64_to_from_le_bytes();
    }
    assert(t.entries@.len() * slot_size(t.depth as nat) + ((t.buffer_size - t.entries@.len())
        * slot_size(t.depth as nat)) == t.buffer_size * slot_size(t.depth as nat))
        by (nonlinear_arith);
}

/// Each slot takes `slot_size` bytes, so `n` entries take `n` slots.
proof fn lemma_entries_bytes_len(entries: Seq<ChangeLogEntry>, depth: nat)
    requires
        forall|t: int| 0 <= t < entries.len() ==> entries[t].path@.len() == depth,
    ensures
        entries_bytes(entries).len() == entries.len() * slot_size(depth),
    decreases entries.len(),
{
    if entries.len() == 0 {
    } else {
        lemma_entries_bytes_len(entries.drop_first(), depth);
        lemma_path_bytes_len(entries[0].path@);
        assert(entry_bytes(entries[0]).len() == slot_size(depth)) by {
            vstd::bytes::lemma_auto_spec_u64_to_from_le_bytes();
        }
        assert(entries.len() * slot_size(depth) == slot_size(depth) + (entries.len() - 1)
            * slot_size(depth)) by (nonlinear_arith);
    }
}

/// A path of `n` node hashes takes `32 * n` bytes.
proof fn lemma_path_bytes_len(path: Seq<[u8; 32]>)
    ensures
        path_bytes(path).len() == 32 * path.len(),
    decreases path.len(),
{
    if path.len() > 0 {
        lemma_path_bytes_len(path.drop_first());
    }
}

/// Appending one node hash extends a path's byte run by that hash.
proof fn lemma_path_bytes_snoc(path: Seq<[u8; 32]>, h: [u8; 32])
    ensures
        path_bytes(path.push(h)) == path_bytes(path) + h@,
    decreases path.len(),
{
    if path.len() == 0 {
        assert(path.push(h).drop_first() =~= Seq::<[u8; 32]>::empty());
        assert(path_bytes(Seq::<[u8; 32]>::empty()) =~= Seq::<u8>::empty());
        assert(path_bytes(path.push(h)) =~= path_bytes(path) + h@);
    } else {
        lemma_path_bytes_snoc(path.drop_first(), h);
        assert(path.push(h).drop_first() =~= path.drop_first().push(h));
        assert(path_bytes(path.push(h)) =~= path_bytes(path) + h@);
    }
}

/// Appending one entry extends the change log's byte run by that slot.
proof fn lemma_entries_bytes_snoc(entries: Seq<ChangeLogEntry>, e: ChangeLogEntry)
    ensures
        entries_bytes(entries.push(e)) == entries_bytes(entries) + entry_bytes(e),
    decreases entries.len(),
{
    if entries.len() == 0 {
        assert(entries.push(e).drop_first() =~= Seq::<ChangeLogEntry>::empty());
        assert(entries_bytes(Seq::<ChangeLogEntry>::empty()) =~= Seq::<u8>::empty());
        assert(entries_bytes(entries.push(e)) =~= entries_bytes(entries) + entry_bytes(e));
    } else {
        lemma_entries_bytes_snoc(entries.drop_first(), e);
        assert(entries.push(e).drop_first() =~= entries.drop_first().push(e));
        assert(entries_bytes(entries.push(e)) =~= entries_bytes(entries) + entry_bytes(e));
    }
}

/// A persisted record parsed back: the tree's durable state and the
/// resident change-log entries, without the in-memory append path.
pub struct TreeRecord {
    pub depth: u64,
    pub buffer_size: u64,
    pub sequence_number: u64,
    pub root: [u8; 32],
    pub entries: Vec<ChangeLogEntry>,
}

/// The byte form a parsed record stands for, laid out exactly as
/// `record_bytes` lays out a tree.
pub open spec fn record_bytes_of(rec: TreeRecord) -> Seq<u8> {
    spec_u64_to_le_bytes(rec.depth) + spec_u64_to_le_bytes(rec.buffer_size)
        + spec_u64_to_le_bytes(rec.sequence_number) + rec.root@ + spec_u64_to_le_bytes(
        rec.entries@.len() as u64,
    ) + entries_bytes(rec.entries@) + zero_bytes(
        ((rec.buffer_size - rec.entries@.len()) * slot_size(rec.depth as nat)) as nat,
    )
}

/// Reads a persisted record back. Accepts exactly the byte form that
/// `serialize` writes: whenever a record comes back, the input was its
/// own byte form, so a record read from a stored tree carries that
/// tree's persisted state.
#[verifier::loop_isolation(false)]
#[verifier::rlimit(100)]
pub fn deserialize(bytes: &Vec<u8>) -> (r: Option<TreeRecord>)
    ensures
        match r {
            Some(rec) => {
                &&& bytes@ == record_bytes_of(rec)
                &&& 1 <= rec.depth <= MAX_DEPTH
                &&& 1 <= rec.buffer_size <= MAX_BUFFER_SIZE
                &&& rec.entries@.len() <= rec.buffer_size
                &&& forall|t: int|
                    0 <= t < rec.entries@.len() ==> #[trigger] rec.entries@[t].path@.len()
                        == rec.depth
            },
            None => true,
        },
{
    proof {
        lemma_auto_spec_u64_to_from_le_bytes();
    }
    if bytes.len() < 64 {
        return None;
    }
    let s = bytes.as_slice();
    let depth = u64_from_le_bytes(slice_subrange(s, 0, 8));
    let buffer_size = u64_from_le_bytes(slice_subrange(s, 8, 16));
    let sequence_number = u64_from_le_bytes(slice_subrange(s, 16, 24));
    let root_slice = slice_subrange(s, 24, 56);
    let mut root = [0u8; 32];
    let mut i: usize = 0;
    while i < 32
        invariant
            i <= 32,
            root_slice@ == bytes@.subrange(24, 56),
            forall|v: int| 0 <= v < i ==> root@[v] == bytes@[24 + v],
        decreases 32 - i,
    {
        root[i] = root_slice[i];
        i += 1;
    }
    proof {
        assert(root@ =~= bytes@.subrange(24, 56));
    }
    let count = u64_from_le_bytes(slice_subrange(s, 56, 64));
    if depth < 1 || depth > MAX_DEPTH as u64 || buffer_size < 1 || buffer_size > MAX_BUFFER_SIZE
        as u64 || count > buffer_size {
        return None;
    }
    let depth_us = depth as usize;
    let buf_us = buffer_size as usize;
    let count_us = count as usize;
    let slot = 48 + 32 * depth_us;
    proof {
        assert(buf_us * slot <= 1024 * 1008) by (nonlinear_arith)
            requires
                buf_us <= 1024,
                slot <= 1008,
        ;
    }
    if bytes.len() != 64 + buf_us * slot {
        return None;
    }
    let ghost header = bytes@.subrange(0, 8) + bytes@.subrange(8, 16) + bytes@.subrange(16, 24)
        + bytes@.subrange(24, 56) + bytes@.subrange(56, 64);
    proof {
        assert(header =~= bytes@.take(64));
    }
    let mut entries: Vec<ChangeLogEntry> = Vec::new();
    let mut off: usize = 64;
    let mut t: usize = 0;
    while t < count_us
        invariant
            t <= count_us,
            off == 64 + t * slot,
            entries@.len() == t,
            bytes@.take(off as int) == header + entries_bytes(entries@),
            forall|v: int| 0 <= v < t ==> #[trigger] entries@[v].path@.len() == depth_us,
        decreases count_us - t,
    {
        proof {
            assert((t + 1) * slot <= buf_us * slot) by (nonlinear_arith)
                requires
                    t + 1 <= buf_us,
                    slot >= 0,
            ;
            assert((t + 1) * slot == t * slot + slot) by (nonlinear_arith);
        }
        let eroot_slice = slice_subrange(s, off, off + 32);
        let mut eroot = [0u8; 32];
        let mut w: usize = 0;
        while w < 32
            invariant
                w <= 32,
                eroot_slice@ == bytes@.subrange(off as int, off + 32),
                forall|v: int| 0 <= v < w ==> eroot@[v] == bytes@[off + v],
            decreases 32 - w,
        {
            eroot[w] = eroot_slice[w];
            w += 1;
        }
        proof {
            assert(eroot@ =~= bytes@.subrange(off as int, off + 32));
        }
        let eindex = u64_from_le_bytes(slice_subrange(s, off + 32, off + 40));
        let eseq = u64_from_le_bytes(slice_subrange(s, off + 40, off + 48));
        let mut path: Vec<[u8; 32]> = Vec::new();
        let mut k: usize = 0;
        while k < depth_us
            invariant
                k <= depth_us,
                path@.len() == k,
                path_bytes(path@) == bytes@.subrange(off + 48, off + 48 + 32 * k),
            decreases depth_us - k,
        {
            let h_slice = slice_subrange(s, off + 48 + 32 * k, off + 48 + 32 * k + 32);
            let mut h = [0u8; 32];
            let mut w2: usize = 0;
            while w2 < 32
                invariant
                    w2 <= 32,
                    h_slice@ == bytes@.subrange(off + 48 + 32 * k, off + 48 + 32 * k + 32),
                    forall|v: int| 0 <= v < w2 ==> h@[v] == bytes@[off + 48 + 32 * k + v],
                decreases 32 - w2,
            {
                h[w2] = h_slice[w2];
                w2 += 1;
            }
            proof {
                assert(h@ =~= bytes@.subrange(off + 48 + 32 * k, off + 48 + 32 * k + 32));
                lemma_path_bytes_snoc(path@, h);
            }
            path.push(h);
            proof {
                assert(path_bytes(path@) =~= bytes@.subrange(off + 48, off + 48 + 32 * (k + 1)));
            }
            k += 1;
        }
        let entry = ChangeLogEntry {
            root: eroot,
            path,
            index: eindex,
            sequence_number: eseq,
            leaves_at: Ghost(Seq::empty()),
        };
        proof {
            lemma_entries_bytes_snoc(entries@, entry);
            assert(entry_bytes(entry) =~= bytes@.subrange(off as int, off + slot));
            assert(bytes@.take(off + slot as int) =~= bytes@.take(off as int) + bytes@.subrange(
                off as int,
                off + slot,
            ));
        }
        entries.push(entry);
        off = off + slot;
        t += 1;
    }
    // the unused slots must be zeroed
    proof {
        assert(count_us * slot <= buf_us * slot) by (nonlinear_arith)
            requires
                count_us <= buf_us,
                slot >= 0,
        ;
    }
    let mut p: usize = off;
    while p < bytes.len()
        invariant
            off <= p <= bytes@.len(),
            forall|v: int| off <= v < p ==> bytes@[v] == 0,
        decreases bytes@.len() - p,
    {
        if *slice_index_get(s, p) != 0 {
            return None;
        }
        p += 1;
    }
    let rec = TreeRecord { depth, buffer_size, sequence_number, root, entries };
    proof {
        assert((buf_us - count_us) * slot == buf_us * slot - count_us * slot) by (nonlinear_arith);
        assert(bytes@.subrange(off as int, bytes@.len() as int) =~= zero_bytes(
            (bytes@.len() - off) as nat,
        ));
        assert(bytes@ =~= bytes@.take(off as int) + bytes@.subrange(
            off as int,
            bytes@.len() as int,
        ));
        assert(bytes@ =~= record_bytes_of(rec));
    }
    Some(rec)
}

} // verus!
