//! Deltas: what their instructions make of a source.

use crate::outcome::Outcome;
use crate::text::{decimal, push_decimal};
use crate::varint::{read_delta_size, read_size, size_bytes, size_reads_back};
use vstd::prelude::*;
use vstd::string::*;

verus! {

/// A number of `n` bytes of which those that are zero are left out: `mask` says which
/// are there, lowest first, and `s` starts with them. Its value, and the bytes it takes.
pub open spec fn packed(mask: nat, n: nat, s: Seq<u8>) -> (nat, nat)
    decreases n,
{
    if n == 0 {
        (0, 0)
    } else if mask % 2 == 1 {
        let (v, t) = packed(mask / 2, (n - 1) as nat, s.drop_first());
        (s[0] as nat + 256 * v, t + 1)
    } else {
        let (v, t) = packed(mask / 2, (n - 1) as nat, s);
        (256 * v, t)
    }
}

/// The operands of a copy instruction.
pub struct CopyOperands {
    /// Where the copied bytes start in the source.
    pub offset: nat,
    /// How many bytes are copied.
    pub size: nat,
    /// How many bytes the operands take in the delta.
    pub taken: nat,
}

/// The operands of the copy instruction `op`, which stand at the front of `s`: an offset of
/// four bytes and a size of three, where no size stands for 65536.
pub open spec fn copy_operands(op: u8, s: Seq<u8>) -> CopyOperands {
    let (offset, t) = packed(op as nat % 16, 4, s);
    let (size, u) = packed(op as nat / 16 % 8, 3, s.skip(t as int));
    CopyOperands {
        offset,
        size: if size == 0 {
            0x1_0000
        } else {
            size
        },
        taken: t + u,
    }
}

/// The message for a copy that reaches past the end of the source.
pub open spec fn copy_message(offset: nat, size: nat, source_len: nat) -> Seq<char> {
    "delta copy out of bounds: offset="@ + decimal(offset) + ", size="@ + decimal(size)
        + ", source_len="@ + decimal(source_len)
}

/// The message for a delta whose instructions do not give what it announces.
pub open spec fn target_message(expected: nat, got: nat) -> Seq<char> {
    "delta target size mismatch: expected "@ + decimal(expected) + ", got "@ + decimal(got)
}

/// What the instructions `ops` make of `source`, after the bytes `built`.
pub open spec fn run_ops(source: Seq<u8>, ops: Seq<u8>, built: Seq<u8>) -> Outcome<Seq<u8>>
    decreases ops.len(),
{
    if ops.len() == 0 {
        Outcome::Done(built)
    } else if ops[0] >= 128 {
        let c = copy_operands(ops[0], ops.drop_first());
        if 1 + c.taken > ops.len() {
            Outcome::Broken
        } else if c.offset + c.size > source.len() {
            Outcome::Failed(copy_message(c.offset, c.size, source.len()))
        } else {
            run_ops(
                source,
                ops.skip(1 + c.taken as int),
                built + source.subrange(c.offset as int, (c.offset + c.size) as int),
            )
        }
    } else if ops[0] > 0 {
        if 1 + ops[0] > ops.len() {
            Outcome::Failed("delta insert out of bounds"@)
        } else {
            run_ops(source, ops.skip(1 + ops[0]), built + ops.subrange(1, 1 + ops[0]))
        }
    } else {
        Outcome::Failed("delta instruction byte 0 is reserved"@)
    }
}

/// What applying `delta` to `source` comes to. The delta announces the size of its source,
/// which is not looked at, and that of its target; then come its instructions.
pub open spec fn delta_outcome(source: Seq<u8>, delta: Seq<u8>) -> Outcome<Seq<u8>> {
    match read_size(delta) {
        Outcome::Failed(m) => Outcome::Failed(m),
        Outcome::Broken => Outcome::Broken,
        Outcome::Done((_, n)) => {
            let rest = delta.skip(n as int);
            match read_size(rest) {
                Outcome::Failed(m) => Outcome::Failed(m),
                Outcome::Broken => Outcome::Broken,
                Outcome::Done((announced, m)) => match run_ops(
                    source,
                    rest.skip(m as int),
                    Seq::empty(),
                ) {
                    Outcome::Done(built) => if built.len() != announced as usize {
                        Outcome::Failed(target_message(announced, built.len()))
                    } else {
                        Outcome::Done(built)
                    },
                    other => other,
                },
            }
        },
    }
}

/// Whether the bit of weight `w` is set in an instruction.
pub open spec fn has_bit(op: u8, w: nat) -> bool {
    op as nat / w % 2 == 1
}

/// An operand byte: the next of `s` behind `at` others, where its bit is set, else zero.
pub open spec fn operand(op: u8, w: nat, s: Seq<u8>, at: int) -> nat {
    if has_bit(op, w) {
        s[at] as nat
    } else {
        0
    }
}

/// How many of the bits below that of weight `w` are set in an instruction.
pub open spec fn bits_below(op: u8, w: nat) -> int
    decreases w,
{
    if w <= 1 {
        0
    } else {
        bits_below(op, w / 2) + if has_bit(op, w / 2) {
            1int
        } else {
            0
        }
    }
}

/// A copy instruction has a byte for each of its seven low bits that is set, in their order: four
/// of the offset and three of the size, the lowest first, and those that are not there are zero.
/// A size of zero stands for 65536.
pub proof fn copy_operands_in_place(op: u8, s: Seq<u8>)
    requires
        bits_below(op, 128) <= s.len(),
    ensures
        ({
            let c = copy_operands(op, s);
            let size = operand(op, 16, s, bits_below(op, 16)) + 0x100 * operand(
                op,
                32,
                s,
                bits_below(op, 32),
            ) + 0x1_0000 * operand(op, 64, s, bits_below(op, 64));
            &&& c.offset == operand(op, 1, s, 0) + 0x100 * operand(op, 2, s, bits_below(op, 2))
                + 0x1_0000 * operand(op, 4, s, bits_below(op, 4)) + 0x100_0000 * operand(
                op,
                8,
                s,
                bits_below(op, 8),
            )
            &&& c.size == if size == 0 {
                0x1_0000
            } else {
                size
            }
            &&& c.taken == bits_below(op, 128)
        }),
{
    let (low, high) = (op as nat % 16, op as nat / 16 % 8);
    lemma_bits(op);
    let (offset, t) = packed(low, 4, s);
    lemma_packed_four(low, s);
    let tail = s.skip(t as int);
    lemma_packed_three(high, tail);
    let b5 = count_bit(high, 1);
    let b6 = b5 + count_bit(high, 2);
    assert(has_bit(op, 16) ==> tail[0] == s[t as int]);
    assert(has_bit(op, 32) ==> tail[b5] == s[t + b5]);
    assert(has_bit(op, 64) ==> tail[b6] == s[t + b6]);
}

proof fn lemma_nibbles(op: u8)
    ensures
        ({
            let (low, high) = (op as nat % 16, op as nat / 16 % 8);
            &&& has_bit(op, 1) == (low / 1 % 2 == 1)
            &&& has_bit(op, 2) == (low / 2 % 2 == 1)
            &&& has_bit(op, 4) == (low / 4 % 2 == 1)
            &&& has_bit(op, 8) == (low / 8 % 2 == 1)
            &&& has_bit(op, 16) == (high / 1 % 2 == 1)
            &&& has_bit(op, 32) == (high / 2 % 2 == 1)
            &&& has_bit(op, 64) == (high / 4 % 2 == 1)
        }),
{
    assert(op / 1 % 2 == op % 16 / 1 % 2 && op / 2 % 2 == op % 16 / 2 % 2 && op / 4 % 2 == op % 16 / 4
        % 2 && op / 8 % 2 == op % 16 / 8 % 2) by (bit_vector);
    assert(op / 16 % 2 == op / 16 % 8 / 1 % 2 && op / 32 % 2 == op / 16 % 8 / 2 % 2 && op / 64 % 2
        == op / 16 % 8 / 4 % 2) by (bit_vector);
}

proof fn lemma_bits(op: u8)
    ensures
        ({
            let (low, high) = (op as nat % 16, op as nat / 16 % 8);
            &&& has_bit(op, 1) == (low / 1 % 2 == 1)
            &&& has_bit(op, 2) == (low / 2 % 2 == 1)
            &&& has_bit(op, 4) == (low / 4 % 2 == 1)
            &&& has_bit(op, 8) == (low / 8 % 2 == 1)
            &&& has_bit(op, 16) == (high / 1 % 2 == 1)
            &&& has_bit(op, 32) == (high / 2 % 2 == 1)
            &&& has_bit(op, 64) == (high / 4 % 2 == 1)
            &&& bits_below(op, 1) == 0
            &&& bits_below(op, 2) == count_bit(low, 1)
            &&& bits_below(op, 4) == bits_below(op, 2) + count_bit(low, 2)
            &&& bits_below(op, 8) == bits_below(op, 4) + count_bit(low, 4)
            &&& bits_below(op, 16) == bits_below(op, 8) + count_bit(low, 8)
            &&& bits_below(op, 32) == bits_below(op, 16) + count_bit(high, 1)
            &&& bits_below(op, 64) == bits_below(op, 32) + count_bit(high, 2)
            &&& bits_below(op, 128) == bits_below(op, 64) + count_bit(high, 4)
        }),
{
    lemma_nibbles(op);
    assert(bits_below(op, 1) == 0);
    assert(bits_below(op, 2) == bits_below(op, 1) + if has_bit(op, 1) { 1int } else { 0 });
    assert(bits_below(op, 4) == bits_below(op, 2) + if has_bit(op, 2) { 1int } else { 0 });
    assert(bits_below(op, 8) == bits_below(op, 4) + if has_bit(op, 4) { 1int } else { 0 });
    assert(bits_below(op, 16) == bits_below(op, 8) + if has_bit(op, 8) { 1int } else { 0 });
    assert(bits_below(op, 32) == bits_below(op, 16) + if has_bit(op, 16) { 1int } else { 0 });
    assert(bits_below(op, 64) == bits_below(op, 32) + if has_bit(op, 32) { 1int } else { 0 });
    assert(bits_below(op, 128) == bits_below(op, 64) + if has_bit(op, 64) { 1int } else { 0 });
}

spec fn at_bit(mask: nat, w: nat, s: Seq<u8>, at: int) -> nat {
    if mask / w % 2 == 1 {
        s[at] as nat
    } else {
        0
    }
}

spec fn count_bit(mask: nat, w: nat) -> int {
    if mask / w % 2 == 1 {
        1
    } else {
        0
    }
}

proof fn lemma_packed_three(mask: nat, s: Seq<u8>)
    requires
        mask < 16,
        count_bit(mask, 1) + count_bit(mask, 2) + count_bit(mask, 4) <= s.len(),
    ensures
        ({
            let b1 = count_bit(mask, 1);
            let b2 = b1 + count_bit(mask, 2);
            packed(mask, 3, s) == (
                (at_bit(mask, 1, s, 0) + 0x100 * at_bit(mask, 2, s, b1) + 0x1_0000 * at_bit(
                    mask,
                    4,
                    s,
                    b2,
                )) as nat,
                (b2 + count_bit(mask, 4)) as nat,
            )
        }),
{
    reveal_with_fuel(packed, 4);
    assert(mask / 1 == mask);
    assert(mask / 2 / 2 == mask / 4);
    let rest = if mask % 2 == 1 {
        s.drop_first()
    } else {
        s
    };
    let last = if mask / 2 % 2 == 1 {
        rest.drop_first()
    } else {
        rest
    };
    if mask % 2 == 1 {
        assert(mask / 2 % 2 == 1 || mask / 4 % 2 == 1 ==> rest[0] == s[1]);
        assert(mask / 2 % 2 == 1 && mask / 4 % 2 == 1 ==> last[0] == s[2]);
    } else {
        assert(mask / 2 % 2 == 1 && mask / 4 % 2 == 1 ==> last[0] == s[1]);
    }
}

proof fn lemma_packed_four(mask: nat, s: Seq<u8>)
    requires
        mask < 16,
        count_bit(mask, 1) + count_bit(mask, 2) + count_bit(mask, 4) + count_bit(mask, 8)
            <= s.len(),
    ensures
        ({
            let b1 = count_bit(mask, 1);
            let b2 = b1 + count_bit(mask, 2);
            let b3 = b2 + count_bit(mask, 4);
            packed(mask, 4, s) == (
                (at_bit(mask, 1, s, 0) + 0x100 * at_bit(mask, 2, s, b1) + 0x1_0000 * at_bit(
                    mask,
                    4,
                    s,
                    b2,
                ) + 0x100_0000 * at_bit(mask, 8, s, b3)) as nat,
                (b3 + count_bit(mask, 8)) as nat,
            )
        }),
{
    let rest = if mask % 2 == 1 {
        s.drop_first()
    } else {
        s
    };
    lemma_packed_three(mask / 2, rest);
    if mask % 2 == 1 {
        assert forall|i: int| 0 <= i < rest.len() implies #[trigger] rest[i] == s[i + 1] by {}
    }
    assert(mask / 1 == mask);
    assert(mask / 2 / 1 == mask / 2);
    assert(mask / 2 / 2 == mask / 4);
    assert(mask / 2 / 4 == mask / 8);
}

/// An insert instruction adds the bytes behind it, and the instructions behind these go on.
pub proof fn insert_adds_bytes(source: Seq<u8>, bytes: Seq<u8>, rest: Seq<u8>, built: Seq<u8>)
    requires
        0 < bytes.len() < 128,
    ensures
        run_ops(source, seq![bytes.len() as u8] + bytes + rest, built) == run_ops(
            source,
            rest,
            built + bytes,
        ),
{
    let ops = seq![bytes.len() as u8] + bytes + rest;
    assert(ops.skip(1 + ops[0]) =~= rest);
    assert(ops.subrange(1, 1 + ops[0]) =~= bytes);
}

/// A copy instruction adds the bytes of the source that its operands tell of, and the
/// instructions behind these go on; where the source does not reach so far, the delta is refused.
pub proof fn copy_adds_bytes(
    source: Seq<u8>,
    op: u8,
    operands: Seq<u8>,
    rest: Seq<u8>,
    built: Seq<u8>,
)
    requires
        op >= 128,
        operands.len() == bits_below(op, 128),
    ensures
        ({
            let c = copy_operands(op, operands);
            run_ops(source, seq![op] + operands + rest, built) == if c.offset + c.size
                <= source.len() {
                run_ops(
                    source,
                    rest,
                    built + source.subrange(c.offset as int, (c.offset + c.size) as int),
                )
            } else {
                Outcome::Failed(copy_message(c.offset, c.size, source.len()))
            }
        }),
{
    let ops = seq![op] + operands + rest;
    let tail = ops.drop_first();
    assert(tail =~= operands + rest);
    copy_operands_in_place(op, operands);
    copy_operands_in_place(op, tail);
    lemma_bits(op);
    assert(copy_operands(op, tail) == copy_operands(op, operands)) by {
        assert(has_bit(op, 1) ==> tail[0] == operands[0]);
        assert(has_bit(op, 2) ==> tail[bits_below(op, 2)] == operands[bits_below(op, 2)]);
        assert(has_bit(op, 4) ==> tail[bits_below(op, 4)] == operands[bits_below(op, 4)]);
        assert(has_bit(op, 8) ==> tail[bits_below(op, 8)] == operands[bits_below(op, 8)]);
        assert(has_bit(op, 16) ==> tail[bits_below(op, 16)] == operands[bits_below(op, 16)]);
        assert(has_bit(op, 32) ==> tail[bits_below(op, 32)] == operands[bits_below(op, 32)]);
        assert(has_bit(op, 64) ==> tail[bits_below(op, 64)] == operands[bits_below(op, 64)]);
    }
    assert(ops.skip(1 + operands.len() as int) =~= rest);
}

/// A delta is its two sizes and its instructions: it gives what these make of the source, if that
/// is as long as it announces, whatever size of the source it announces; else it is refused.
pub proof fn delta_gives_what_is_built(
    source: Seq<u8>,
    source_size: u64,
    target_size: u64,
    ops: Seq<u8>,
    built: Seq<u8>,
)
    requires
        run_ops(source, ops, Seq::empty()) == Outcome::Done(built),
        target_size <= usize::MAX,
    ensures
        delta_outcome(
            source,
            size_bytes(source_size as nat) + size_bytes(target_size as nat) + ops,
        ) == if built.len() == target_size {
            Outcome::Done(built)
        } else {
            Outcome::Failed(target_message(target_size as nat, built.len()))
        },
{
    let (a, b) = (size_bytes(source_size as nat), size_bytes(target_size as nat));
    let delta = a + b + ops;
    size_reads_back(source_size as nat, b + ops);
    size_reads_back(target_size as nat, ops);
    assert(delta =~= a + (b + ops));
    assert(delta.skip(a.len() as int) =~= b + ops);
    assert((b + ops).skip(b.len() as int) =~= ops);
}

/// A delta that copies past the end of its source is refused with the offset, the size and the
/// length of the source, and one that does not give what it announces with both lengths.
pub proof fn delta_refusals_tell_sizes(offset: nat, size: nat, source_len: nat)
    ensures
        copy_message(offset, size, source_len) == "delta copy out of bounds: offset="@ + decimal(
            offset,
        ) + ", size="@ + decimal(size) + ", source_len="@ + decimal(source_len),
        target_message(offset, size) == "delta target size mismatch: expected "@ + decimal(offset)
            + ", got "@ + decimal(size),
{
}

/// An insert that reaches past the end of the delta is refused, and so is the instruction zero.
pub proof fn odd_instructions_are_refused(source: Seq<u8>, ops: Seq<u8>, built: Seq<u8>)
    requires
        ops.len() > 0,
        ops[0] < 128,
        ops[0] >= ops.len() || ops[0] == 0,
    ensures
        run_ops(source, ops, built) is Failed,
{
}

/// No instructions add nothing.
pub proof fn no_instructions_add_nothing(source: Seq<u8>, built: Seq<u8>)
    ensures
        run_ops(source, Seq::empty(), built) == Outcome::Done(built),
{
}

fn copy_error(offset: u64, size: u64, source_len: usize) -> (r: String)
    ensures
        r@ == copy_message(offset as nat, size as nat, source_len as nat),
{
    let mut m = "delta copy out of bounds: offset=".to_owned();
    push_decimal(&mut m, offset);
    m.append(", size=");
    push_decimal(&mut m, size);
    m.append(", source_len=");
    push_decimal(&mut m, source_len as u64);
    m
}

fn target_error(expected: u64, got: usize) -> (r: String)
    ensures
        r@ == target_message(expected as nat, got as nat),
{
    let mut m = "delta target size mismatch: expected ".to_owned();
    push_decimal(&mut m, expected);
    m.append(", got ");
    push_decimal(&mut m, got as u64);
    m
}

/// Reads a number of `n` bytes of which `mask` says which are there, at `pos`: its value and
/// the position after it; `None` where the delta breaks off before.
fn read_packed(delta: &[u8], pos: usize, mask: u8, n: u8) -> (r: Option<(u64, usize)>)
    requires
        pos <= delta.len(),
        n <= 4,
    ensures
        ({
            let (v, t) = packed(mask as nat, n as nat, delta@.skip(pos as int));
            match r {
                Some((value, at)) => value == v && at == pos + t && at <= delta.len() && value
                    <= u32::MAX,
                None => pos + t > delta.len(),
            }
        }),
{
    let ghost whole = packed(mask as nat, n as nat, delta@.skip(pos as int));
    let mut value: u64 = 0;
    let mut scale: u64 = 1;
    let mut bits: u8 = mask;
    let mut left: u8 = n;
    let mut at: usize = pos;
    while left > 0
        invariant
            left <= n <= 4,
            whole == packed(mask as nat, n as nat, delta@.skip(pos as int)),
            pos <= at <= delta.len(),
            scale == pow256((n - left) as nat),
            value < scale,
            ({
                let (v, t) = packed(bits as nat, left as nat, delta@.skip(at as int));
                whole.0 == value + scale * v && pos + whole.1 == at + t
            }),
        decreases left,
    {
        let ghost rest = delta@.skip(at as int);
        proof {
            reveal_with_fuel(pow256, 5);
        }
        let ghost next = if bits % 2 == 1 {
            rest.drop_first()
        } else {
            rest
        };
        let ghost (v, t) = packed(bits as nat / 2, (left - 1) as nat, next);
        if bits % 2 == 1 {
            if at >= delta.len() {
                return None;
            }
            let byte: u64 = delta[at] as u64;
            assert(rest.drop_first() =~= delta@.skip(at + 1));
            assert(value + byte * scale < 256 * scale) by (nonlinear_arith)
                requires
                    value < scale,
                    byte < 256,
            ;
            assert(0 <= byte * scale) by (nonlinear_arith);
            assert(value + scale * (byte + 256 * v) == (value + byte * scale) + (scale * 256) * v)
                by (nonlinear_arith);
            value = value + byte * scale;
            at += 1;
        } else {
            assert(scale * (256 * v) == (scale * 256) * v) by (nonlinear_arith);
        }
        scale = scale * 256;
        bits = bits / 2;
        left -= 1;
    }
    proof {
        reveal_with_fuel(pow256, 5);
        assert(scale * 0 == 0);
    }
    Some((value, at))
}

/// 256^k.
pub open spec fn pow256(k: nat) -> nat
    decreases k,
{
    if k == 0 {
        1
    } else {
        256 * pow256((k - 1) as nat)
    }
}

/// The operands of the copy instruction at `pos`, and the position after them; `None` where
/// the delta breaks off before.
fn read_copy(delta: &[u8], pos: usize) -> (r: Option<(u64, u64, usize)>)
    requires
        pos < delta.len(),
        delta@[pos as int] >= 128,
    ensures
        ({
            let c = copy_operands(delta@[pos as int], delta@.skip(pos + 1));
            match r {
                Some((offset, size, at)) => {
                    &&& offset == c.offset
                    &&& size == c.size
                    &&& at == pos + 1 + c.taken
                    &&& at <= delta.len()
                    &&& offset <= u32::MAX
                    &&& 0 < size <= u32::MAX
                },
                None => pos + 1 + c.taken > delta.len(),
            }
        }),
{
    let op: u8 = delta[pos];
    let (offset, at) = match read_packed(delta, pos + 1, op % 16, 4) {
        Some(v) => v,
        None => { return None; },
    };
    assert(delta@.skip(pos + 1).skip(at - pos - 1) =~= delta@.skip(at as int));
    let (written, end) = match read_packed(delta, at, op / 16 % 8, 3) {
        Some(v) => v,
        None => { return None; },
    };
    let size: u64 = if written == 0 { 0x1_0000 } else { written };
    Some((offset, size, end))
}

/// Appends bytes.
pub(crate) fn push_bytes(out: &mut Vec<u8>, bytes: &[u8])
    ensures
        final(out)@ == old(out)@ + bytes@,
{
    out.extend_from_slice(bytes);
    assert(out@ =~= old(out)@ + bytes@);
}

/// Applies a delta; `None` for one that breaks off inside a copy instruction or announces a
/// size that is too long.
pub(crate) fn run_delta(source: &[u8], delta: &[u8]) -> (r: Option<Result<Vec<u8>, String>>)
    ensures
        match delta_outcome(source@, delta@) {
            Outcome::Done(t) => r matches Some(Ok(v)) && v@ == t,
            Outcome::Failed(m) => r matches Some(Err(e)) && e@ == m,
            Outcome::Broken => r is None,
        },
{
    assert(delta@.skip(0) =~= delta@);
    let (_, source_bytes) = match read_delta_size(delta, 0) {
        None => { return None; },
        Some(Err(e)) => { return Some(Err(e)); },
        Some(Ok(v)) => v,
    };
    let (announced, target_bytes) = match read_delta_size(delta, source_bytes) {
        None => { return None; },
        Some(Err(e)) => { return Some(Err(e)); },
        Some(Ok(v)) => v,
    };
    let mut pos: usize = source_bytes + target_bytes;
    let mut target: Vec<u8> = Vec::new();
    let ghost ops = delta@.skip(source_bytes as int).skip(target_bytes as int);
    assert(delta@.skip(pos as int) =~= ops);
    while pos < delta.len()
        invariant
            pos <= delta.len(),
            run_ops(source@, delta@.skip(pos as int), target@) == run_ops(source@, ops, Seq::empty()),
            delta_outcome(source@, delta@) == (match run_ops(source@, ops, Seq::empty()) {
                Outcome::Done(built) => if built.len() != announced as usize {
                    Outcome::Failed(target_message(announced as nat, built.len()))
                } else {
                    Outcome::Done(built)
                },
                other => other,
            }),
        decreases delta.len() - pos,
    {
        let op: u8 = delta[pos];
        let ghost here = delta@.skip(pos as int);
        let ghost args = here.drop_first();
        assert(args =~= delta@.skip(pos + 1));
        if op >= 128 {
            let (offset, size, at) = match read_copy(delta, pos) {
                Some(v) => v,
                None => { return None; },
            };
            if offset + size > source.len() as u64 {
                return Some(Err(copy_error(offset, size, source.len())));
            }
            push_bytes(&mut target, &source[offset as usize..(offset + size) as usize]);
            assert(here.skip(1 + copy_operands(op, args).taken as int) =~= delta@.skip(at as int));
            pos = at;
        } else if op > 0 {
            let size: usize = op as usize;
            if size >= delta.len() - pos {
                return Some(Err("delta insert out of bounds".to_owned()));
            }
            push_bytes(&mut target, &delta[pos + 1..pos + 1 + size]);
            assert(here.subrange(1, 1 + op as int) =~= delta@.subrange(pos + 1, pos + 1 + size));
            pos = pos + 1 + size;
            assert(here.skip(1 + op as int) =~= delta@.skip(pos as int));
        } else {
            return Some(Err("delta instruction byte 0 is reserved".to_owned()));
        }
    }
    assert(delta@.skip(pos as int).len() == 0);
    if target.len() != announced as usize {
        return Some(Err(target_error(announced, target.len())));
    }
    Some(Ok(target))
}

/// Applies a delta to its source.
pub fn apply_delta(source: &[u8], delta: &[u8]) -> (r: Result<Vec<u8>, String>)
    requires
        !(delta_outcome(source@, delta@) is Broken),
    ensures
        delta_outcome(source@, delta@).is_result(r, |v: Vec<u8>| v@),
{
    match run_delta(source, delta) {
        Some(r) => r,
        None => Err(String::new()),
    }
}

/// Whether `apply_delta` takes this delta: whether it does not break off inside an
/// instruction that is reached.
pub fn is_delta_whole(source: &[u8], delta: &[u8]) -> (r: bool)
    ensures
        r == !(delta_outcome(source@, delta@) is Broken),
{
    run_delta(source, delta).is_some()
}

} // verus!
