//! The computation of deltas.

use crate::delta::{copy_operands, delta_outcome, packed, pow256, push_bytes, run_ops};
use crate::outcome::Outcome;
use crate::varint::{encode_size, size_bytes, size_reads_back};
use std::collections::HashMap;
use vstd::prelude::*;

verus! {

broadcast use vstd::std_specs::hash::group_hash_axioms;

/// The length of the blocks of the base that are looked for in the target.
pub const BLOCK_SIZE: usize = 16;

/// How many bytes of `a` from `i` on equal those of `b` from `j` on.
pub open spec fn match_len(a: Seq<u8>, i: int, b: Seq<u8>, j: int) -> nat
    decreases a.len() - i,
{
    if 0 <= i < a.len() && 0 <= j < b.len() && a[i] == b[j] {
        1 + match_len(a, i + 1, b, j + 1)
    } else {
        0
    }
}

/// The longest match of at least one block, at `pos` of the target, that starts at one of the
/// first `n` blocks of the base: its offset and length, the first of those of equal
/// length; a length of zero where there is none.
pub open spec fn best_match(base: Seq<u8>, target: Seq<u8>, pos: int, n: nat) -> (int, nat)
    decreases n,
{
    if n == 0 {
        (0, 0)
    } else {
        let before = best_match(base, target, pos, (n - 1) as nat);
        let len = match_len(base, 16 * (n - 1), target, pos);
        if len >= 16 && len > before.1 {
            (16 * (n - 1), len)
        } else {
            before
        }
    }
}

/// Which of the `n` low bytes of a number are not zero, one bit each, the lowest first.
pub open spec fn packed_mask(v: nat, n: nat) -> nat
    decreases n,
{
    if n == 0 {
        0
    } else {
        (if v % 256 != 0 {
            1nat
        } else {
            0
        }) + 2 * packed_mask(v / 256, (n - 1) as nat)
    }
}

/// Those of the `n` low bytes of a number that are not zero, the lowest first.
pub open spec fn packed_bytes(v: nat, n: nat) -> Seq<u8>
    decreases n,
{
    if n == 0 {
        Seq::empty()
    } else {
        (if v % 256 != 0 {
            seq![(v % 256) as u8]
        } else {
            Seq::empty()
        }) + packed_bytes(v / 256, (n - 1) as nat)
    }
}

/// The instruction that copies `size` bytes of the source from `offset` on.
pub open spec fn copy_op(offset: nat, size: nat) -> Seq<u8> {
    let written = if size == 0x1_0000 {
        0
    } else {
        size
    };
    seq![(128 + packed_mask(offset, 4) + 16 * packed_mask(written, 3)) as u8] + packed_bytes(
        offset,
        4,
    ) + packed_bytes(written, 3)
}

/// The instructions that copy `len` bytes from `offset` on, at most 65536 at a time.
pub open spec fn copy_ops(offset: nat, len: nat) -> Seq<u8>
    decreases len,
{
    if len == 0 {
        Seq::empty()
    } else if len <= 0x1_0000 {
        copy_op(offset, len)
    } else {
        copy_op(offset, 0x1_0000) + copy_ops(offset + 0x1_0000, (len - 0x1_0000) as nat)
    }
}

/// The instructions that insert bytes, at most 127 at a time.
pub open spec fn insert_ops(bytes: Seq<u8>) -> Seq<u8>
    decreases bytes.len(),
{
    if bytes.len() == 0 {
        Seq::empty()
    } else if bytes.len() <= 127 {
        seq![bytes.len() as u8] + bytes
    } else {
        seq![127u8] + bytes.take(127) + insert_ops(bytes.skip(127))
    }
}

/// The instructions for the target from `pos` on, where the bytes `pending` before it have
/// still to be inserted: at each position the longest match is copied, and a byte that
/// starts none is inserted.
pub open spec fn target_ops(base: Seq<u8>, target: Seq<u8>, pos: int, pending: Seq<u8>) -> Seq<u8>
    decreases target.len() - pos,
{
    if pos < 0 || pos >= target.len() {
        insert_ops(pending)
    } else {
        proof {
            best_match_matches(base, target, pos, base.len() / 16);
        }
        let (offset, len) = best_match(base, target, pos, base.len() / 16);
        if len >= 16 {
            insert_ops(pending) + copy_ops(offset as nat, len) + target_ops(
                base,
                target,
                pos + len,
                Seq::empty(),
            )
        } else {
            target_ops(base, target, pos + 1, pending.push(target[pos]))
        }
    }
}

/// The delta from `base` to `target`.
pub open spec fn delta_bytes(base: Seq<u8>, target: Seq<u8>) -> Seq<u8> {
    size_bytes(base.len()) + size_bytes(target.len()) + target_ops(base, target, 0, Seq::empty())
}

/// The 64-bit FNV-1a hash.
pub open spec fn fnv(s: Seq<u8>) -> u64
    decreases s.len(),
{
    if s.len() == 0 {
        0xcbf29ce484222325
    } else {
        (fnv(s.drop_last()) ^ (s.last() as u64)).wrapping_mul(0x100000001b3)
    }
}

fn fnv_hash(data: &[u8]) -> (h: u64)
    ensures
        h == fnv(data@),
{
    let mut hash: u64 = 0xcbf29ce484222325;
    let mut i: usize = 0;
    while i < data.len()
        invariant
            i <= data.len(),
            hash == fnv(data@.take(i as int)),
        decreases data.len() - i,
    {
        hash = (hash ^ data[i] as u64).wrapping_mul(0x100000001b3);
        i += 1;
        assert(data@.take(i as int).drop_last() =~= data@.take(i - 1));
    }
    assert(data@.take(i as int) =~= data@);
    hash
}

/// The bytes of block `k` of the base.
pub open spec fn block(base: Seq<u8>, k: int) -> Seq<u8> {
    base.subrange(16 * k, 16 * k + 16)
}

/// The offsets of those of the first `n` blocks that have the hash `h`.
spec fn offsets_of(base: Seq<u8>, h: u64, n: nat) -> Seq<usize>
    decreases n,
{
    if n == 0 {
        Seq::empty()
    } else if fnv(block(base, n - 1)) == h {
        offsets_of(base, h, (n - 1) as nat).push((16 * (n - 1)) as usize)
    } else {
        offsets_of(base, h, (n - 1) as nat)
    }
}

/// Whether an index lists, for each hash, the offsets of those of the first `n` blocks that
/// have it.
spec fn is_index(index: Map<u64, Vec<usize>>, base: Seq<u8>, n: nat) -> bool {
    &&& forall|h: u64| #[trigger] index.contains_key(h) ==> index[h]@ == offsets_of(base, h, n)
    &&& forall|h: u64| !#[trigger] index.contains_key(h) ==> offsets_of(base, h, n).len() == 0
}

fn block_index(base: &[u8]) -> (index: HashMap<u64, Vec<usize>>)
    ensures
        is_index(index@, base@, base@.len() / 16),
{
    let mut index: HashMap<u64, Vec<usize>> = HashMap::new();
    let mut k: usize = 0;
    while k < base.len() / BLOCK_SIZE
        invariant
            k <= base.len() / BLOCK_SIZE,
            is_index(index@, base@, k as nat),
        decreases base.len() - k,
    {
        let offset: usize = k * BLOCK_SIZE;
        let h: u64 = fnv_hash(&base[offset..offset + BLOCK_SIZE]);
        let ghost old_index = index@;
        let mut offsets: Vec<usize> = match index.remove(&h) {
            Some(v) => v,
            None => Vec::new(),
        };
        assert(offsets@ =~= offsets_of(base@, h, k as nat));
        offsets.push(offset);
        index.insert(h, offsets);
        k += 1;
        assert(block(base@, k - 1) =~= base@.subrange(offset as int, offset + 16));
        assert forall|g: u64| #[trigger] index@.contains_key(g) implies index@[g]@ == offsets_of(base@, g, k as nat) by {
            if g != h {
                assert(old_index.contains_key(g));
            }
        }
        assert forall|g: u64| !#[trigger] index@.contains_key(g) implies offsets_of(base@, g, k as nat).len() == 0 by {
            assert(!old_index.contains_key(g));
        }
    }
    index
}

/// The longest match at `pos` of the target among these offsets of the base.
spec fn scan(base: Seq<u8>, target: Seq<u8>, pos: int, offsets: Seq<usize>) -> (int, nat)
    decreases offsets.len(),
{
    if offsets.len() == 0 {
        (0, 0)
    } else {
        let before = scan(base, target, pos, offsets.drop_last());
        let len = match_len(base, offsets.last() as int, target, pos);
        if len > before.1 {
            (offsets.last() as int, len)
        } else {
            before
        }
    }
}

proof fn lemma_match_len(a: Seq<u8>, i: int, b: Seq<u8>, j: int)
    requires
        0 <= i <= a.len(),
        0 <= j <= b.len(),
    ensures
        i + match_len(a, i, b, j) <= a.len(),
        j + match_len(a, i, b, j) <= b.len(),
        a.subrange(i, i + match_len(a, i, b, j)) == b.subrange(j, j + match_len(a, i, b, j)),
    decreases a.len() - i,
{
    if i < a.len() && j < b.len() && a[i] == b[j] {
        lemma_match_len(a, i + 1, b, j + 1);
        let n = match_len(a, i + 1, b, j + 1);
        let (x, y) = (a.subrange(i + 1, i + 1 + n), b.subrange(j + 1, j + 1 + n));
        assert forall|k: int| i <= k < i + 1 + n implies a[k] == b[j + (k - i)] by {
            if k > i {
                assert(x[k - i - 1] == y[k - i - 1]);
            }
        }
    }
    assert(a.subrange(i, i + match_len(a, i, b, j)) =~= b.subrange(j, j + match_len(a, i, b, j)));
}

/// Looking only at the blocks whose hash is that of the target's next bytes finds the
/// longest match.
proof fn lemma_scan(base: Seq<u8>, target: Seq<u8>, pos: int, n: nat)
    requires
        0 <= pos,
        pos + 16 <= target.len(),
        16 * n <= base.len() <= usize::MAX,
    ensures
        ({
            let best = best_match(base, target, pos, n);
            let found = scan(base, target, pos, offsets_of(base, fnv(target.subrange(pos, pos + 16)), n));
            if best.1 >= 16 {
                found == best
            } else {
                best == (0int, 0nat) && found.1 < 16
            }
        }),
    decreases n,
{
    if n > 0 {
        let h = fnv(target.subrange(pos, pos + 16));
        lemma_scan(base, target, pos, (n - 1) as nat);
        let k = n - 1;
        lemma_match_len(base, 16 * k, target, pos);
        let len = match_len(base, 16 * k, target, pos);
        if fnv(block(base, k)) == h {
            let l = offsets_of(base, h, n);
            assert(l.drop_last() =~= offsets_of(base, h, k as nat));
        } else if len >= 16 {
            let (x, y) = (base.subrange(16 * k, 16 * k + len), target.subrange(pos, pos + len));
            assert(block(base, k) =~= x.take(16));
            assert(target.subrange(pos, pos + 16) =~= y.take(16));
        }
    }
}

/// What is found as the longest match is a match: the bytes of the base at its offset are those
/// of the target at `pos`.
pub proof fn best_match_matches(base: Seq<u8>, target: Seq<u8>, pos: int, n: nat)
    requires
        0 <= pos <= target.len(),
        16 * n <= base.len(),
    ensures
        ({
            let (offset, len) = best_match(base, target, pos, n);
            &&& 0 <= offset
            &&& offset + len <= base.len()
            &&& pos + len <= target.len()
            &&& base.subrange(offset, offset + len) == target.subrange(pos, pos + len)
        }),
    decreases n,
{
    if n > 0 {
        best_match_matches(base, target, pos, (n - 1) as nat);
        lemma_match_len(base, 16 * (n - 1), target, pos);
    } else {
        assert(base.subrange(0, 0) =~= target.subrange(pos, pos));
    }
}

proof fn lemma_match_covers(a: Seq<u8>, i: int, b: Seq<u8>, j: int, m: nat)
    requires
        0 <= i && i + m <= a.len(),
        0 <= j && j + m <= b.len(),
        a.subrange(i, i + m) == b.subrange(j, j + m),
    ensures
        match_len(a, i, b, j) >= m,
    decreases m,
{
    if m > 0 {
        let (x, y) = (a.subrange(i, i + m), b.subrange(j, j + m));
        assert(x[0] == a[i] && y[0] == b[j]);
        assert(a.subrange(i + 1, i + m) =~= x.drop_first());
        assert(b.subrange(j + 1, j + m) =~= y.drop_first());
        lemma_match_covers(a, i + 1, b, j + 1, (m - 1) as nat);
    }
}

proof fn lemma_best_covers(base: Seq<u8>, target: Seq<u8>, pos: int, n: nat, k: int)
    requires
        0 <= k < n,
    ensures
        match_len(base, 16 * k, target, pos) >= 16 ==> best_match(base, target, pos, n).1
            >= match_len(base, 16 * k, target, pos),
    decreases n,
{
    if k < n - 1 {
        lemma_best_covers(base, target, pos, (n - 1) as nat, k);
    }
}

/// Where the target goes on with bytes of a block of the base and maybe more behind it, these are
/// copied, or as many or more from elsewhere in the base, once what is pending is inserted.
pub proof fn block_is_copied(
    base: Seq<u8>,
    target: Seq<u8>,
    pos: int,
    pending: Seq<u8>,
    k: int,
    m: nat,
)
    requires
        m >= 16,
        0 <= k && 16 * k + m <= base.len(),
        0 <= pos && pos + m <= target.len(),
        base.subrange(16 * k, 16 * k + m) == target.subrange(pos, pos + m),
    ensures
        exists|offset: nat, len: nat|
            {
                &&& m <= len
                &&& offset + len <= base.len()
                &&& pos + len <= target.len()
                &&& base.subrange(offset as int, (offset + len) as int) == target.subrange(
                    pos,
                    pos + len,
                )
                &&& target_ops(base, target, pos, pending) == insert_ops(pending)
                    + #[trigger] copy_ops(offset, len) + target_ops(
                    base,
                    target,
                    pos + len,
                    Seq::empty(),
                )
            },
{
    let n = base.len() / 16;
    lemma_match_covers(base, 16 * k, target, pos, m);
    lemma_best_covers(base, target, pos, n, k);
    best_match_matches(base, target, pos, n);
    let (offset, len) = best_match(base, target, pos, n);
    assert(copy_ops(offset as nat, len) == copy_ops(offset as nat, len));
}

proof fn lemma_no_match(base: Seq<u8>, target: Seq<u8>, pos: int, n: nat)
    requires
        0 <= pos <= target.len(),
        16 * n <= base.len(),
        forall|k: int|
            0 <= k < n && pos + 16 <= target.len() ==> #[trigger] block(base, k) != target.subrange(
                pos,
                pos + 16,
            ),
    ensures
        best_match(base, target, pos, n).1 < 16,
    decreases n,
{
    if n > 0 {
        lemma_no_match(base, target, pos, (n - 1) as nat);
        let len = match_len(base, 16 * (n - 1), target, pos);
        lemma_match_len(base, 16 * (n - 1), target, pos);
        if len >= 16 {
            let (x, y) = (
                base.subrange(16 * (n - 1), 16 * (n - 1) + len),
                target.subrange(pos, pos + len),
            );
            assert(block(base, n - 1) =~= x.take(16));
            assert(target.subrange(pos, pos + 16) =~= y.take(16));
        }
    }
}

/// A byte of the target at which no block of the base starts is inserted.
pub proof fn other_byte_is_inserted(base: Seq<u8>, target: Seq<u8>, pos: int, pending: Seq<u8>)
    requires
        0 <= pos < target.len(),
        forall|k: int|
            0 <= k < base.len() / 16 && pos + 16 <= target.len() ==> #[trigger] block(base, k)
                != target.subrange(pos, pos + 16),
    ensures
        target_ops(base, target, pos, pending) == target_ops(
            base,
            target,
            pos + 1,
            pending.push(target[pos]),
        ),
{
    lemma_no_match(base, target, pos, base.len() / 16);
}

/// A delta is the sizes of its base and its target and the instructions for the target; at the
/// end of the target what is pending is inserted.
pub proof fn delta_has_these_parts(base: Seq<u8>, target: Seq<u8>, pending: Seq<u8>)
    ensures
        delta_bytes(base, target) == size_bytes(base.len()) + size_bytes(target.len()) + target_ops(
            base,
            target,
            0,
            Seq::empty(),
        ),
        target_ops(base, target, target.len() as int, pending) == insert_ops(pending),
{
}

/// Inserted bytes take one byte more for every 127 of them, and copied ones at most eight for
/// every 65536.
pub proof fn instructions_are_short(bytes: Seq<u8>, offset: nat, len: nat)
    ensures
        127 * insert_ops(bytes).len() <= 128 * bytes.len() + 127,
        0x1_0000 * copy_ops(offset, len).len() <= 8 * len + 8 * 0x1_0000,
    decreases bytes.len() + len,
{
    if bytes.len() > 127 {
        instructions_are_short(bytes.skip(127), offset, 0);
    }
    if len > 0 {
        let written: nat = if len == 0x1_0000 {
            0
        } else {
            len
        };
        lemma_packed_len(offset, 4);
        lemma_packed_len(written, 3);
        lemma_packed_len(0, 3);
        if len > 0x1_0000 {
            instructions_are_short(Seq::empty(), offset + 0x1_0000, (len - 0x1_0000) as nat);
        }
    }
}

proof fn lemma_packed_len(v: nat, n: nat)
    ensures
        packed_bytes(v, n).len() <= n,
    decreases n,
{
    if n > 0 {
        lemma_packed_len(v / 256, (n - 1) as nat);
    }
}

/// Appends those of the `n` low bytes of a number that are not zero; returns which they are.
fn push_packed(out: &mut Vec<u8>, v: u64, n: u8) -> (mask: u8)
    requires
        n <= 4,
    ensures
        mask == packed_mask(v as nat, n as nat),
        mask < 16,
        n <= 3 ==> mask < 8,
        n <= 2 ==> mask < 4,
        n <= 1 ==> mask < 2,
        n == 0 ==> mask == 0,
        final(out)@ == old(out)@ + packed_bytes(v as nat, n as nat),
    decreases n,
{
    if n == 0 {
        assert(out@ =~= old(out)@ + packed_bytes(v as nat, n as nat));
        return 0;
    }
    let byte: u8 = (v % 256) as u8;
    if byte != 0 {
        out.push(byte);
    }
    let rest: u8 = push_packed(out, v / 256, n - 1);
    assert(out@ =~= old(out)@ + packed_bytes(v as nat, n as nat));
    if byte != 0 {
        1 + 2 * rest
    } else {
        2 * rest
    }
}

/// Appends the instruction that copies `size` bytes from `offset` on.
fn emit_copy(buf: &mut Vec<u8>, offset: usize, size: usize)
    ensures
        final(buf)@ == old(buf)@ + copy_op(offset as nat, size as nat),
{
    let mut operands: Vec<u8> = Vec::new();
    let offset_mask: u8 = push_packed(&mut operands, offset as u64, 4);
    let written: usize = if size == 0x1_0000 { 0 } else { size };
    let size_mask: u8 = push_packed(&mut operands, written as u64, 3);
    buf.push(128 + offset_mask + 16 * size_mask);
    push_bytes(buf, operands.as_slice());
    assert(buf@ =~= old(buf)@ + copy_op(offset as nat, size as nat));
}

/// Appends the instructions that insert the pending bytes, and forgets these.
fn flush_inserts(buf: &mut Vec<u8>, pending: &mut Vec<u8>)
    ensures
        final(buf)@ == old(buf)@ + insert_ops(old(pending)@),
        final(pending)@ == Seq::<u8>::empty(),
{
    let mut at: usize = 0;
    assert(pending@.skip(0) =~= pending@);
    while at < pending.len()
        invariant
            at <= pending.len(),
            pending@ == old(pending)@,
            buf@ + insert_ops(pending@.skip(at as int)) == old(buf)@ + insert_ops(old(pending)@),
        decreases pending.len() - at,
    {
        let left: usize = pending.len() - at;
        let count: usize = if left < 127 { left } else { 127 };
        let ghost before = buf@;
        let ghost rest = pending@.skip(at as int);
        buf.push(count as u8);
        push_bytes(buf, &pending.as_slice()[at..at + count]);
        at = at + count;
        assert(pending@.subrange(at - count, at as int) =~= rest.take(count as int));
        assert(rest.skip(count as int) =~= pending@.skip(at as int));
        assert(rest.take(rest.len() as int) =~= rest);
        assert(buf@ + insert_ops(pending@.skip(at as int)) =~= before + insert_ops(rest));
    }
    assert(insert_ops(pending@.skip(at as int)) =~= Seq::empty());
    assert(buf@ =~= old(buf)@ + insert_ops(old(pending)@));
    pending.clear();
}

/// The longest match at `pos` of the target among these offsets of the base.
fn longest_match(
    base: &[u8],
    target: &[u8],
    pos: usize,
    offsets: &Vec<usize>,
) -> (r: (usize, usize))
    requires
        pos <= target.len(),
        forall|i: int| 0 <= i < offsets.len() ==> #[trigger] offsets@[i] <= base.len(),
    ensures
        (r.0 as int, r.1 as nat) == scan(base@, target@, pos as int, offsets@),
{
    let mut best_offset: usize = 0;
    let mut best_len: usize = 0;
    let mut i: usize = 0;
    while i < offsets.len()
        invariant
            i <= offsets.len(),
            pos <= target.len(),
            forall|i: int| 0 <= i < offsets.len() ==> #[trigger] offsets@[i] <= base.len(),
            (best_offset as int, best_len as nat) == scan(base@, target@, pos as int, offsets@.take(i as int)),
        decreases offsets.len() - i,
    {
        let offset: usize = offsets[i];
        let mut len: usize = 0;
        while len < target.len() - pos && len < base.len() - offset && target[pos + len] == base[offset + len]
            invariant
                pos + len <= target.len(),
                offset + len <= base.len(),
                match_len(base@, offset as int, target@, pos as int) == len + match_len(
                    base@,
                    offset + len,
                    target@,
                    pos + len,
                ),
            decreases target.len() - len,
        {
            len += 1;
        }
        if len > best_len {
            best_len = len;
            best_offset = offset;
        }
        i += 1;
        assert(offsets@.take(i as int).drop_last() =~= offsets@.take(i - 1));
    }
    assert(offsets@.take(i as int) =~= offsets@);
    (best_offset, best_len)
}

proof fn lemma_offsets_of(base: Seq<u8>, h: u64, n: nat)
    requires
        16 * n <= base.len() <= usize::MAX,
    ensures
        forall|i: int|
            0 <= i < offsets_of(base, h, n).len() ==> #[trigger] offsets_of(base, h, n)[i]
                <= base.len(),
    decreases n,
{
    if n > 0 {
        let before = offsets_of(base, h, (n - 1) as nat);
        lemma_offsets_of(base, h, (n - 1) as nat);
        assert forall|i: int| 0 <= i < offsets_of(base, h, n).len() implies #[trigger] offsets_of(base, h, n)[i]
            <= base.len() by {
            if i < before.len() {
                assert(offsets_of(base, h, n)[i] == before[i]);
            }
        }
    }
}

/// A number written without its zero bytes reads back.
proof fn lemma_packed(v: nat, n: nat, rest: Seq<u8>)
    requires
        v < pow256(n),
    ensures
        packed(packed_mask(v, n), n, packed_bytes(v, n) + rest) == (v, packed_bytes(v, n).len()),
    decreases n,
{
    if n > 0 {
        let k = (n - 1) as nat;
        assert(v / 256 < pow256(k));
        lemma_packed(v / 256, k, rest);
        let s = packed_bytes(v, n) + rest;
        if v % 256 != 0 {
            assert(s.drop_first() =~= packed_bytes(v / 256, k) + rest);
        } else {
            assert(s =~= packed_bytes(v / 256, k) + rest);
        }
        assert(packed_mask(v, n) / 2 == packed_mask(v / 256, k));
    }
}

proof fn lemma_mask_small(v: nat)
    ensures
        packed_mask(v, 4) < 16,
        packed_mask(v, 3) < 8,
{
    reveal_with_fuel(packed_mask, 5);
}

/// A copy instruction copies.
proof fn lemma_run_copy(source: Seq<u8>, offset: nat, size: nat, tail: Seq<u8>, built: Seq<u8>)
    requires
        0 < size <= 0x1_0000,
        offset < 0x1_0000_0000,
        offset + size <= source.len(),
    ensures
        run_ops(source, copy_op(offset, size) + tail, built) == run_ops(
            source,
            tail,
            built + source.subrange(offset as int, (offset + size) as int),
        ),
{
    let written = if size == 0x1_0000 {
        0
    } else {
        size
    };
    let (p, q) = (packed_bytes(offset, 4), packed_bytes(written, 3));
    let ops = copy_op(offset, size) + tail;
    let (m, k) = (packed_mask(offset, 4), packed_mask(written, 3));
    lemma_mask_small(offset);
    lemma_mask_small(written);
    let op = (128 + m + 16 * k) as u8;
    assert(op as nat % 16 == m && op as nat / 16 % 8 == k && op >= 128);
    assert(pow256(4) == 0x1_0000_0000 && pow256(3) == 0x100_0000) by {
        reveal_with_fuel(pow256, 5);
    }
    assert(ops[0] == op);
    assert(ops.drop_first() =~= p + (q + tail));
    lemma_packed(offset, 4, q + tail);
    assert((p + (q + tail)).skip(p.len() as int) =~= q + tail);
    lemma_packed(written, 3, tail);
    let c = copy_operands(op, ops.drop_first());
    assert(c.offset == offset && c.size == size && c.taken == p.len() + q.len());
    assert(ops.skip(1 + c.taken as int) =~= tail);
}

proof fn lemma_run_copies(source: Seq<u8>, offset: nat, len: nat, tail: Seq<u8>, built: Seq<u8>)
    requires
        offset + len <= source.len() <= 0x1_0000_0000,
    ensures
        run_ops(source, copy_ops(offset, len) + tail, built) == run_ops(
            source,
            tail,
            built + source.subrange(offset as int, (offset + len) as int),
        ),
    decreases len,
{
    let whole = source.subrange(offset as int, (offset + len) as int);
    if len == 0 {
        assert(copy_ops(offset, len) + tail =~= tail);
        assert(built + whole =~= built);
    } else if len <= 0x1_0000 {
        lemma_run_copy(source, offset, len, tail, built);
    } else {
        let rest = (len - 0x1_0000) as nat;
        let first = source.subrange(offset as int, offset as int + 0x1_0000);
        let ops = copy_ops(offset + 0x1_0000, rest);
        assert(copy_ops(offset, len) + tail =~= copy_op(offset, 0x1_0000) + (ops + tail));
        lemma_run_copy(source, offset, 0x1_0000, ops + tail, built);
        lemma_run_copies(source, offset + 0x1_0000, rest, tail, built + first);
        assert(built + first + source.subrange(offset as int + 0x1_0000, (offset + len) as int) =~= built
            + whole);
    }
}

proof fn lemma_run_inserts(source: Seq<u8>, bytes: Seq<u8>, tail: Seq<u8>, built: Seq<u8>)
    ensures
        run_ops(source, insert_ops(bytes) + tail, built) == run_ops(source, tail, built + bytes),
    decreases bytes.len(),
{
    let ops = insert_ops(bytes) + tail;
    if bytes.len() == 0 {
        assert(ops =~= tail);
        assert(built + bytes =~= built);
    } else if bytes.len() <= 127 {
        assert(ops.subrange(1, 1 + bytes.len() as int) =~= bytes);
        assert(ops.skip(1 + bytes.len() as int) =~= tail);
    } else {
        let (first, rest) = (bytes.take(127), bytes.skip(127));
        assert(ops.subrange(1, 128) =~= first);
        assert(ops.skip(128) =~= insert_ops(rest) + tail);
        lemma_run_inserts(source, rest, tail, built + first);
        assert(built + first + rest =~= built + bytes);
    }
}

proof fn lemma_run_target(
    base: Seq<u8>,
    target: Seq<u8>,
    pos: int,
    pending: Seq<u8>,
    built: Seq<u8>,
)
    requires
        0 <= pos <= target.len(),
        base.len() <= 0x1_0000_0000,
        built + pending == target.take(pos),
    ensures
        run_ops(base, target_ops(base, target, pos, pending), built) == Outcome::Done(target),
    decreases target.len() - pos,
{
    let none = Seq::<u8>::empty();
    if pos == target.len() {
        lemma_run_inserts(base, pending, none, built);
        assert(insert_ops(pending) + none =~= insert_ops(pending));
        assert(built + pending =~= target);
    } else {
        best_match_matches(base, target, pos, base.len() / 16);
        let (offset, len) = best_match(base, target, pos, base.len() / 16);
        if len >= 16 {
            let rest = target_ops(base, target, pos + len, none);
            let copies = copy_ops(offset as nat, len);
            assert(target_ops(base, target, pos, pending) =~= insert_ops(pending) + (copies + rest));
            lemma_run_inserts(base, pending, copies + rest, built);
            lemma_run_copies(base, offset as nat, len, rest, built + pending);
            let now = built + pending + base.subrange(offset, offset + len);
            assert(now + none =~= target.take(pos + len));
            lemma_run_target(base, target, pos + len, none, now);
        } else {
            assert(built + pending.push(target[pos]) =~= (built + pending).push(target[pos]));
            assert(target.take(pos).push(target[pos]) =~= target.take(pos + 1));
            lemma_run_target(base, target, pos + 1, pending.push(target[pos]), built);
        }
    }
}

/// A delta rebuilds its target: applied to the base that it was computed from, it gives the
/// target. Offsets into the base are written in 32 bits, so the base may not be longer than
/// they reach.
pub proof fn delta_rebuilds_target(base: Seq<u8>, target: Seq<u8>)
    requires
        base.len() <= 0x1_0000_0000,
        target.len() <= usize::MAX,
    ensures
        delta_outcome(base, delta_bytes(base, target)) == Outcome::Done(target),
{
    let delta = delta_bytes(base, target);
    let (head, next) = (size_bytes(base.len()), size_bytes(target.len()));
    let ops = target_ops(base, target, 0, Seq::empty());
    assert(delta =~= head + (next + ops));
    size_reads_back(base.len(), next + ops);
    assert(delta.skip(head.len() as int) =~= next + ops);
    size_reads_back(target.len(), ops);
    assert((next + ops).skip(next.len() as int) =~= ops);
    assert(Seq::<u8>::empty() + Seq::<u8>::empty() =~= target.take(0));
    lemma_run_target(base, target, 0, Seq::empty(), Seq::empty());
}

/// Computes a delta from `base` to `target`: what `apply_delta` makes of the base with it is
/// the target.
pub fn compute_delta(base: &[u8], target: &[u8]) -> (r: Vec<u8>)
    ensures
        r@ == delta_bytes(base@, target@),
        base@.len() <= 0x1_0000_0000 ==> delta_outcome(base@, r@) == Outcome::Done(target@),
{
    let index: HashMap<u64, Vec<usize>> = block_index(base);
    let mut result: Vec<u8> = Vec::new();
    encode_size(&mut result, base.len() as u64);
    encode_size(&mut result, target.len() as u64);
    let mut pos: usize = 0;
    let mut pending: Vec<u8> = Vec::new();
    assert(result@ + target_ops(base@, target@, 0, Seq::empty()) =~= delta_bytes(base@, target@));
    assert(pending@ =~= Seq::empty());
    while pos < target.len()
        invariant
            pos <= target.len(),
            base@.len() <= usize::MAX,
            is_index(index@, base@, base@.len() / 16),
            result@ + target_ops(base@, target@, pos as int, pending@) == delta_bytes(base@, target@),
        decreases target.len() - pos,
    {
        let mut found: (usize, usize) = (0, 0);
        proof {
            best_match_matches(base@, target@, pos as int, base@.len() / 16);
        }
        if target.len() - pos >= BLOCK_SIZE {
            let hash: u64 = fnv_hash(&target[pos..pos + BLOCK_SIZE]);
            proof {
                lemma_scan(base@, target@, pos as int, base@.len() / 16);
                lemma_offsets_of(base@, hash, base@.len() / 16);
            }
            if let Some(offsets) = index.get(&hash) {
                found = longest_match(base, target, pos, offsets);
            }
        }
        let ghost best = best_match(base@, target@, pos as int, base@.len() / 16);
        assert(if found.1 >= 16 { (found.0 as int, found.1 as nat) == best } else { best.1 < 16 });
        let ghost before = result@;
        let ghost inserted = pending@;
        if found.1 >= BLOCK_SIZE {
            flush_inserts(&mut result, &mut pending);
            let mut copied: usize = 0;
            let ghost start = result@;
            while copied < found.1
                invariant
                    copied <= found.1,
                    found.0 + found.1 <= base.len(),
                    result@ + copy_ops((found.0 + copied) as nat, (found.1 - copied) as nat) == start + copy_ops(
                        found.0 as nat,
                        found.1 as nat,
                    ),
                decreases found.1 - copied,
            {
                let left: usize = found.1 - copied;
                let chunk: usize = if left < 0x1_0000 { left } else { 0x1_0000 };
                let ghost mid = result@;
                emit_copy(&mut result, found.0 + copied, chunk);
                copied = copied + chunk;
                assert(result@ + copy_ops((found.0 + copied) as nat, (found.1 - copied) as nat) =~= mid
                    + copy_ops((found.0 + copied - chunk) as nat, left as nat));
            }
            assert(result@ =~= start + copy_ops(found.0 as nat, found.1 as nat));
            pos = pos + found.1;
            assert(result@ + target_ops(base@, target@, pos as int, pending@) =~= before + target_ops(
                base@,
                target@,
                pos - found.1,
                inserted,
            ));
        } else {
            pending.push(target[pos]);
            pos += 1;
        }
    }
    flush_inserts(&mut result, &mut pending);
    proof {
        if base@.len() <= 0x1_0000_0000 {
            delta_rebuilds_target(base@, target@);
        }
    }
    result
}

} // verus!
